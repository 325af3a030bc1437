//! HDF5 datatypes, and the values that are read from datasets and attributes.

use crate::order::views;
use crate::number::Real;
use crate::text::{decimal, join, joined, to_decimal};
use vstd::prelude::*;
use vstd::string::*;

verus! {

/// Refuse to load datasets bigger than this many elements (safety valve).
pub const MAX_ELEMENTS: usize = 50_000_000;

/// Fixed-length strings longer than this are not supported (they would blow up the read buffer,
/// since HDF5 only converts fixed to fixed strings).
pub const MAX_FIXED_STR: usize = 4096;

/// The size of an integer.
#[derive(Clone, Copy, Debug, PartialEq, Eq, Structural)]
pub enum IntSize {
    U1,
    U2,
    U4,
    U8,
}

/// The size of a floating-point number.
#[derive(Clone, Copy, Debug, PartialEq, Eq, Structural)]
pub enum FloatSize {
    U2,
    U4,
    U8,
}

impl IntSize {
    pub open spec fn bits(self) -> nat {
        match self {
            IntSize::U1 => 8,
            IntSize::U2 => 16,
            IntSize::U4 => 32,
            IntSize::U8 => 64,
        }
    }
}

impl FloatSize {
    pub open spec fn bits(self) -> nat {
        match self {
            FloatSize::U2 => 16,
            FloatSize::U4 => 32,
            FloatSize::U8 => 64,
        }
    }
}

/// What an HDF5 datatype is, as far as it matters here.
#[derive(Debug)]
pub enum TypeDesc {
    Integer(IntSize),
    Unsigned(IntSize),
    Float(FloatSize),
    Boolean,
    Enum,
    Compound,
    FixedArray(Box<TypeDesc>, usize),
    FixedAscii(usize),
    FixedUnicode(usize),
    VarLenAscii,
    VarLenUnicode,
    VarLenArray(Box<TypeDesc>),
    Other,
}

/// The name that a datatype is shown by.
pub open spec fn name_of_type(td: TypeDesc) -> Seq<char>
    decreases td,
{
    match td {
        TypeDesc::Integer(size) => "int"@ + decimal(size.bits()),
        TypeDesc::Unsigned(size) => "uint"@ + decimal(size.bits()),
        TypeDesc::Float(size) => "float"@ + decimal(size.bits()),
        TypeDesc::Boolean => "bool"@,
        TypeDesc::Enum => "enum"@,
        TypeDesc::Compound => "compound"@,
        TypeDesc::FixedArray(inner, n) => name_of_type(*inner) + "["@ + decimal(n as nat) + "]"@,
        TypeDesc::FixedAscii(n) => "str["@ + decimal(n as nat) + "]"@,
        TypeDesc::FixedUnicode(n) => "str["@ + decimal(n as nat) + "]"@,
        TypeDesc::VarLenAscii => "str"@,
        TypeDesc::VarLenUnicode => "str"@,
        TypeDesc::VarLenArray(inner) => "vlen<"@ + name_of_type(*inner) + ">"@,
        TypeDesc::Other => "other"@,
    }
}

/// `head`, then a number, then `tail`.
fn numbered(head: &str, n: u64, tail: &str) -> (s: String)
    ensures
        s@ == head@ + decimal(n as nat) + tail@,
{
    let mut s = head.to_owned();
    s.append(to_decimal(n).as_str());
    s.append(tail);
    s
}

fn int_bits(size: &IntSize) -> (r: u64)
    ensures
        r == size.bits(),
{
    match size {
        IntSize::U1 => 8,
        IntSize::U2 => 16,
        IntSize::U4 => 32,
        IntSize::U8 => 64,
    }
}

fn float_bits(size: &FloatSize) -> (r: u64)
    ensures
        r == size.bits(),
{
    match size {
        FloatSize::U2 => 16,
        FloatSize::U4 => 32,
        FloatSize::U8 => 64,
    }
}

/// The name that a datatype is shown by.
pub fn dtype_name(td: &TypeDesc) -> (s: String)
    ensures
        s@ == name_of_type(*td),
    decreases td,
{
    proof {
        reveal_strlit("");
    }
    match td {
        TypeDesc::Integer(size) => {
            let s = numbered("int", int_bits(size), "");
            assert(s@ =~= name_of_type(*td));
            s
        },
        TypeDesc::Unsigned(size) => {
            let s = numbered("uint", int_bits(size), "");
            assert(s@ =~= name_of_type(*td));
            s
        },
        TypeDesc::Float(size) => {
            let s = numbered("float", float_bits(size), "");
            assert(s@ =~= name_of_type(*td));
            s
        },
        TypeDesc::Boolean => "bool".to_owned(),
        TypeDesc::Enum => "enum".to_owned(),
        TypeDesc::Compound => "compound".to_owned(),
        TypeDesc::FixedArray(inner, n) => {
            let mut s = dtype_name(inner);
            s.append("[");
            s.append(to_decimal(*n as u64).as_str());
            s.append("]");
            s
        },
        TypeDesc::FixedAscii(n) => numbered("str[", *n as u64, "]"),
        TypeDesc::FixedUnicode(n) => numbered("str[", *n as u64, "]"),
        TypeDesc::VarLenAscii => "str".to_owned(),
        TypeDesc::VarLenUnicode => "str".to_owned(),
        TypeDesc::VarLenArray(inner) => {
            let mut s = "vlen<".to_owned();
            s.append(dtype_name(inner).as_str());
            s.append(">");
            s
        },
        TypeDesc::Other => "other".to_owned(),
    }
}

/// Whether values of the datatype are strings.
pub open spec fn holds_strings(td: TypeDesc) -> bool {
    td is FixedAscii || td is FixedUnicode || td is VarLenAscii || td is VarLenUnicode
}

/// Whether values of the datatype are read as numbers.
pub open spec fn holds_numbers(td: TypeDesc) -> bool {
    td is Integer || td is Unsigned || td is Float || td is Boolean || td is Enum
}

/// Whether values of the datatype are strings.
pub fn is_string(td: &TypeDesc) -> (r: bool)
    ensures
        r == holds_strings(*td),
{
    matches!(
        td,
        TypeDesc::FixedAscii(_) | TypeDesc::FixedUnicode(_) | TypeDesc::VarLenAscii
            | TypeDesc::VarLenUnicode
    )
}

/// Whether values of the datatype are read as numbers.
pub fn is_numeric(td: &TypeDesc) -> (r: bool)
    ensures
        r == holds_numbers(*td),
{
    matches!(
        td,
        TypeDesc::Integer(_) | TypeDesc::Unsigned(_) | TypeDesc::Float(_) | TypeDesc::Boolean
            | TypeDesc::Enum
    )
}

/// No datatype is read both ways.
pub proof fn strings_are_no_numbers(td: TypeDesc)
    ensures
        !(holds_strings(td) && holds_numbers(td)),
{
}

// ---------------------------------------------------------------------------------------------
// Values
// ---------------------------------------------------------------------------------------------

/// The content of a dataset or attribute.
#[derive(Debug)]
pub enum Value {
    Empty,
    Strings(Vec<String>),
    Numeric { data: Vec<Real>, shape: Vec<usize> },
    Unsupported(String),
}

/// The content of a dataset or attribute, in terms of sequences.
pub enum ValueView {
    Empty,
    Strings(Seq<Seq<char>>),
    Numeric { data: Seq<Real>, shape: Seq<usize> },
    Unsupported(Seq<char>),
}

impl View for Value {
    type V = ValueView;

    open spec fn view(&self) -> ValueView {
        match self {
            Value::Empty => ValueView::Empty,
            Value::Strings(s) => ValueView::Strings(views(s@)),
            Value::Numeric { data, shape } => ValueView::Numeric { data: data@, shape: shape@ },
            Value::Unsupported(m) => ValueView::Unsupported(m@),
        }
    }
}

/// How strings are read: HDF5 has no conversion from fixed to variable length, so fixed strings
/// are read into a generous fixed-size buffer instead.
#[derive(Clone, Copy, Debug, PartialEq, Eq, Structural)]
pub enum StringRead {
    VarLenAscii,
    VarLenUnicode,
    FixedAscii,
    FixedUnicode,
}

/// How strings of a datatype are read; `None` where they are too long or no strings.
pub open spec fn string_read(td: TypeDesc) -> Option<StringRead> {
    match td {
        TypeDesc::VarLenAscii => Some(StringRead::VarLenAscii),
        TypeDesc::VarLenUnicode => Some(StringRead::VarLenUnicode),
        TypeDesc::FixedAscii(n) => if n <= MAX_FIXED_STR {
            Some(StringRead::FixedAscii)
        } else {
            None
        },
        TypeDesc::FixedUnicode(n) => if n <= MAX_FIXED_STR {
            Some(StringRead::FixedUnicode)
        } else {
            None
        },
        _ => None,
    }
}

/// How strings of a datatype are read, or why they cannot be.
pub fn read_strings(td: &TypeDesc) -> (r: Result<StringRead, String>)
    ensures
        match r {
            Ok(how) => string_read(*td) == Some(how),
            Err(e) => string_read(*td) is None && e@ == "string too long ("@ + name_of_type(*td)
                + " bytes)"@,
        },
{
    match td {
        TypeDesc::VarLenAscii => Ok(StringRead::VarLenAscii),
        TypeDesc::VarLenUnicode => Ok(StringRead::VarLenUnicode),
        TypeDesc::FixedAscii(n) if *n <= MAX_FIXED_STR => Ok(StringRead::FixedAscii),
        TypeDesc::FixedUnicode(n) if *n <= MAX_FIXED_STR => Ok(StringRead::FixedUnicode),
        _ => {
            let mut e = "string too long (".to_owned();
            e.append(dtype_name(td).as_str());
            e.append(" bytes)");
            Err(e)
        },
    }
}

/// What is to be done to read the content of a dataset or attribute.
#[derive(Debug)]
pub enum ReadStep {
    /// Nothing: this is the value.
    Done(Value),
    /// Read strings.
    Strings(StringRead),
    /// Read numbers, converted to floating point.
    Numbers,
}

/// The view of a step.
pub enum ReadStepView {
    Done(ValueView),
    Strings(StringRead),
    Numbers,
}

impl View for ReadStep {
    type V = ReadStepView;

    open spec fn view(&self) -> ReadStepView {
        match self {
            ReadStep::Done(v) => ReadStepView::Done(v@),
            ReadStep::Strings(how) => ReadStepView::Strings(*how),
            ReadStep::Numbers => ReadStepView::Numbers,
        }
    }
}

/// How a container of `size` elements is read; `td` is its datatype, or why it cannot be told.
pub open spec fn read_step(size: nat, td: Result<TypeDesc, String>) -> ReadStepView {
    if size == 0 {
        ReadStepView::Done(ValueView::Empty)
    } else if size > MAX_ELEMENTS {
        ReadStepView::Done(
            ValueView::Unsupported(
                "dataset has "@ + decimal(size) + " elements — too large to load"@,
            ),
        )
    } else {
        match td {
            Err(e) => ReadStepView::Done(ValueView::Unsupported("cannot read datatype: "@ + e@)),
            Ok(td) => if holds_strings(td) {
                match string_read(td) {
                    Some(how) => ReadStepView::Strings(how),
                    None => ReadStepView::Done(
                        ValueView::Unsupported(
                            "string read failed: "@ + ("string too long ("@ + name_of_type(td)
                                + " bytes)"@),
                        ),
                    ),
                }
            } else if holds_numbers(td) {
                ReadStepView::Numbers
            } else {
                ReadStepView::Done(
                    ValueView::Unsupported("unsupported datatype: "@ + name_of_type(td)),
                )
            },
        }
    }
}

/// A message made of two texts.
pub fn message(head: &str, tail: &str) -> (s: String)
    ensures
        s@ == head@ + tail@,
{
    let mut s = head.to_owned();
    s.append(tail);
    s
}

/// How the full content of a dataset or attribute is read.
pub fn read_container(size: usize, td: &Result<TypeDesc, String>) -> (r: ReadStep)
    ensures
        r@ == read_step(size as nat, *td),
{
    if size == 0 {
        return ReadStep::Done(Value::Empty);
    }
    if size > MAX_ELEMENTS {
        return ReadStep::Done(
            Value::Unsupported(
                numbered("dataset has ", size as u64, " elements — too large to load"),
            ),
        );
    }
    match td {
        Err(e) => ReadStep::Done(
            Value::Unsupported(message("cannot read datatype: ", e.as_str())),
        ),
        Ok(td) => if is_string(td) {
            match read_strings(td) {
                Ok(how) => ReadStep::Strings(how),
                Err(e) => ReadStep::Done(
                    Value::Unsupported(message("string read failed: ", e.as_str())),
                ),
            }
        } else if is_numeric(td) {
            ReadStep::Numbers
        } else {
            ReadStep::Done(
                Value::Unsupported(
                    message("unsupported datatype: ", dtype_name(td).as_str()),
                ),
            )
        },
    }
}

/// The value that reading strings gives.
pub fn strings_value(read: Result<Vec<String>, String>) -> (v: Value)
    ensures
        v@ == match read {
            Ok(items) => ValueView::Strings(views(items@)),
            Err(e) => ValueView::Unsupported("string read failed: "@ + e@),
        },
{
    match read {
        Ok(items) => Value::Strings(items),
        Err(e) => Value::Unsupported(message("string read failed: ", e.as_str())),
    }
}

/// The value that reading numbers gives.
pub fn numbers_value(read: Result<Vec<Real>, String>, shape: Vec<usize>) -> (v: Value)
    ensures
        v@ == match read {
            Ok(data) => ValueView::Numeric { data: data@, shape: shape@ },
            Err(e) => ValueView::Unsupported("numeric read failed: "@ + e@),
        },
{
    match read {
        Ok(data) => Value::Numeric { data, shape },
        Err(e) => Value::Unsupported(message("numeric read failed: ", e.as_str())),
    }
}

// ---------------------------------------------------------------------------------------------
// Short renderings
// ---------------------------------------------------------------------------------------------

/// A message in angle brackets.
pub open spec fn bracketed(m: Seq<char>) -> Seq<char> {
    "<"@ + m + ">"@
}

/// The first `max` items of a sequence, or all of them.
pub open spec fn first_items<T>(s: Seq<T>, max: nat) -> Seq<T> {
    if s.len() <= max {
        s
    } else {
        s.take(max as int)
    }
}

/// One line for a value, with at most `max` items; `nums` are the texts of its first numbers.
pub open spec fn short_text(v: ValueView, max: nat, nums: Seq<Seq<char>>) -> Seq<char> {
    match v {
        ValueView::Empty => "(empty)"@,
        ValueView::Strings(s) => joined(first_items(s, max), ", "@),
        ValueView::Numeric { data, .. } => if data.len() > max {
            joined(nums, ", "@) + ", …"@
        } else {
            joined(nums, ", "@)
        },
        ValueView::Unsupported(m) => bracketed(m),
    }
}

/// A message in angle brackets.
pub fn bracket(m: &str) -> (s: String)
    ensures
        s@ == bracketed(m@),
{
    let mut s = "<".to_owned();
    s.append(m);
    s.append(">");
    s
}

/// Compact one-line rendering, used for attributes. `nums` are the texts of the numbers shown:
/// the first `max_items` of a numeric value, or all of them.
pub fn format_value_short(v: &Value, max_items: usize, nums: &Vec<String>) -> (s: String)
    requires
        v@ matches ValueView::Numeric { data, .. } ==> nums@.len() == first_items(
            data,
            max_items as nat,
        ).len(),
    ensures
        s@ == short_text(v@, max_items as nat, views(nums@)),
{
    match v {
        Value::Empty => "(empty)".to_owned(),
        Value::Strings(items) => {
            let mut shown: Vec<String> = Vec::new();
            let mut i: usize = 0;
            let ghost all = views(items@);
            while i < items.len() && i < max_items
                invariant
                    i <= items.len(),
                    i <= max_items,
                    all == views(items@),
                    views(shown@) == all.take(i as int),
                decreases items.len() - i,
            {
                let ghost before = views(shown@);
                shown.push(items[i].clone());
                assert(views(shown@) =~= before.push(all[i as int]));
                assert(before.push(all[i as int]) =~= all.take(i + 1));
                i = i + 1;
            }
            assert(views(shown@) =~= first_items(all, max_items as nat));
            join(&shown, ", ")
        },
        Value::Numeric { data, .. } => {
            let mut s = join(nums, ", ");
            if data.len() > max_items {
                s.append(", …");
            }
            s
        },
        Value::Unsupported(m) => bracket(m.as_str()),
    }
}

/// The text of an attribute: its value in short, or why it could not be opened.
pub fn attribute_text(read: &Result<Value, String>, nums: &Vec<String>) -> (s: String)
    requires
        read matches Ok(v) ==> (v@ matches ValueView::Numeric { data, .. } ==> nums@.len()
            == first_items(data, 16).len()),
    ensures
        s@ == match *read {
            Ok(v) => short_text(v@, 16, views(nums@)),
            Err(e) => bracketed(e@),
        },
{
    match read {
        Ok(v) => format_value_short(v, 16, nums),
        Err(e) => bracket(e.as_str()),
    }
}

// ---------------------------------------------------------------------------------------------
// Laws
// ---------------------------------------------------------------------------------------------

/// Numbers are named by their kind and how many bits they have, strings and arrays by how long
/// they are; the name of an array is made of that of its elements.
pub proof fn types_are_named_by_kind_and_size(inner: TypeDesc, size: IntSize, f: FloatSize, n: usize)
    ensures
        ({
            let bits: nat = match size {
                IntSize::U1 => 8,
                IntSize::U2 => 16,
                IntSize::U4 => 32,
                IntSize::U8 => 64,
            };
            &&& name_of_type(TypeDesc::Integer(size)) == "int"@ + decimal(bits)
            &&& name_of_type(TypeDesc::Unsigned(size)) == "u"@ + name_of_type(TypeDesc::Integer(size))
        }),
        name_of_type(TypeDesc::Float(f)) == "float"@ + decimal(
            match f {
                FloatSize::U2 => 16,
                FloatSize::U4 => 32,
                FloatSize::U8 => 64,
            },
        ),
        name_of_type(TypeDesc::FixedAscii(n)) == name_of_type(TypeDesc::VarLenAscii) + "["@ + decimal(
            n as nat,
        ) + "]"@,
        name_of_type(TypeDesc::FixedUnicode(n)) == name_of_type(TypeDesc::FixedAscii(n)),
        name_of_type(TypeDesc::VarLenUnicode) == name_of_type(TypeDesc::VarLenAscii),
        name_of_type(TypeDesc::VarLenAscii) == "str"@,
        name_of_type(TypeDesc::Boolean) == "bool"@,
        name_of_type(TypeDesc::Enum) == "enum"@,
        name_of_type(TypeDesc::Compound) == "compound"@,
        name_of_type(TypeDesc::Other) == "other"@,
        name_of_type(TypeDesc::FixedArray(Box::new(inner), n)) == name_of_type(inner) + "["@ + decimal(
            n as nat,
        ) + "]"@,
        name_of_type(TypeDesc::VarLenArray(Box::new(inner))) == "vlen<"@ + name_of_type(inner) + ">"@,
{
    reveal_strlit("u");
    reveal_strlit("int");
    reveal_strlit("uint");
    reveal_strlit("str");
    reveal_strlit("str[");
    reveal_strlit("[");
    assert(name_of_type(TypeDesc::Unsigned(size)) =~= "u"@ + name_of_type(TypeDesc::Integer(size)));
    assert("str["@ =~= "str"@ + "["@);
}

/// What has no elements is empty, whatever its type; what has more than fifty million is not read.
pub proof fn sizes_decide_first(size: nat, td: Result<TypeDesc, String>)
    ensures
        size == 0 ==> read_step(size, td) == ReadStepView::Done(ValueView::Empty),
        size > 50_000_000 ==> read_step(size, td) == ReadStepView::Done(
            ValueView::Unsupported(
                "dataset has "@ + decimal(size) + " elements — too large to load"@,
            ),
        ),
{
}

/// Integers, floating-point numbers, truth values and enumerations are read as numbers.
pub proof fn numbers_are_read(size: nat, td: TypeDesc)
    requires
        0 < size <= 50_000_000,
    ensures
        read_step(size, Ok(td)) is Numbers <==> match td {
            TypeDesc::Integer(_) => true,
            TypeDesc::Unsigned(_) => true,
            TypeDesc::Float(_) => true,
            TypeDesc::Boolean => true,
            TypeDesc::Enum => true,
            _ => false,
        },
{
}

/// Strings are read as they are stored, fixed ones where they are no longer than 4096 bytes.
pub proof fn strings_are_read(size: nat, n: usize)
    requires
        0 < size <= 50_000_000,
    ensures
        read_step(size, Ok(TypeDesc::VarLenAscii)) == ReadStepView::Strings(StringRead::VarLenAscii),
        read_step(size, Ok(TypeDesc::VarLenUnicode)) == ReadStepView::Strings(
            StringRead::VarLenUnicode,
        ),
        n <= 4096 ==> read_step(size, Ok(TypeDesc::FixedAscii(n))) == ReadStepView::Strings(
            StringRead::FixedAscii,
        ),
        n <= 4096 ==> read_step(size, Ok(TypeDesc::FixedUnicode(n))) == ReadStepView::Strings(
            StringRead::FixedUnicode,
        ),
        n > 4096 ==> read_step(size, Ok(TypeDesc::FixedAscii(n))) is Done && read_step(
            size,
            Ok(TypeDesc::FixedUnicode(n)),
        ) is Done,
{
}

/// Whatever is not read is unsupported, with the reason.
pub proof fn unread_values_say_why(size: nat, td: TypeDesc, e: String)
    requires
        0 < size <= 50_000_000,
    ensures
        read_step(size, Err(e)) == ReadStepView::Done(
            ValueView::Unsupported("cannot read datatype: "@ + e@),
        ),
        td is Compound || td is FixedArray || td is VarLenArray || td is Other ==> read_step(
            size,
            Ok(td),
        ) == ReadStepView::Done(ValueView::Unsupported("unsupported datatype: "@ + name_of_type(td))),
        read_step(size, Ok(td)) is Done ==> (read_step(size, Ok(td)) matches ReadStepView::Done(
            ValueView::Unsupported(_),
        )),
{
}

/// In short a value of strings is its first items with commas between them; one of numbers is the
/// texts of the first, with an ellipsis where there are more; messages stand in angle brackets.
pub proof fn short_texts_show_the_first_items(
    items: Seq<Seq<char>>,
    data: Seq<Real>,
    shape: Seq<usize>,
    nums: Seq<Seq<char>>,
    m: Seq<char>,
    max: nat,
)
    ensures
        short_text(ValueView::Empty, max, nums) == "(empty)"@,
        short_text(ValueView::Unsupported(m), max, nums) == "<"@ + m + ">"@,
        items.len() <= max ==> short_text(ValueView::Strings(items), max, nums) == joined(
            items,
            ", "@,
        ),
        items.len() > max ==> short_text(ValueView::Strings(items), max, nums) == joined(
            items.take(max as int),
            ", "@,
        ),
        data.len() <= max ==> short_text(ValueView::Numeric { data, shape }, max, nums) == joined(
            nums,
            ", "@,
        ),
        data.len() > max ==> short_text(ValueView::Numeric { data, shape }, max, nums) == joined(
            nums,
            ", "@,
        ) + ", …"@,
{
}

} // verus!
