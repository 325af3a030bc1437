use nexus_viewer::datatype::{
    attribute_text, dtype_name, format_value_short, is_numeric, is_string, numbers_value,
    read_container, read_strings, strings_value, FloatSize, IntSize, ReadStep, StringRead, TypeDesc,
    Value, MAX_ELEMENTS, MAX_FIXED_STR,
};
use nexus_viewer::number::Real;

fn reals(v: &[f64]) -> Vec<Real> {
    v.iter().map(|x| Real { bits: x.to_bits() }).collect()
}

fn strings(v: &[&str]) -> Vec<String> {
    v.iter().map(|s| s.to_string()).collect()
}

fn unsupported(step: ReadStep) -> String {
    match step {
        ReadStep::Done(Value::Unsupported(m)) => m,
        other => panic!("{other:?}"),
    }
}

#[test]
fn datatypes_have_names() {
    assert_eq!(dtype_name(&TypeDesc::Integer(IntSize::U1)), "int8");
    assert_eq!(dtype_name(&TypeDesc::Unsigned(IntSize::U4)), "uint32");
    assert_eq!(dtype_name(&TypeDesc::Integer(IntSize::U8)), "int64");
    assert_eq!(dtype_name(&TypeDesc::Unsigned(IntSize::U2)), "uint16");
    assert_eq!(dtype_name(&TypeDesc::Float(FloatSize::U8)), "float64");
    assert_eq!(dtype_name(&TypeDesc::Float(FloatSize::U4)), "float32");
    assert_eq!(dtype_name(&TypeDesc::Float(FloatSize::U2)), "float16");
    assert_eq!(dtype_name(&TypeDesc::Boolean), "bool");
    assert_eq!(dtype_name(&TypeDesc::Enum), "enum");
    assert_eq!(dtype_name(&TypeDesc::Compound), "compound");
    let inner = Box::new(TypeDesc::Float(FloatSize::U8));
    assert_eq!(dtype_name(&TypeDesc::FixedArray(inner, 3)), "float64[3]");
    assert_eq!(dtype_name(&TypeDesc::FixedAscii(7)), "str[7]");
    assert_eq!(dtype_name(&TypeDesc::FixedUnicode(0)), "str[0]");
    assert_eq!(dtype_name(&TypeDesc::VarLenAscii), "str");
    assert_eq!(dtype_name(&TypeDesc::VarLenUnicode), "str");
    let nested = Box::new(TypeDesc::VarLenArray(Box::new(TypeDesc::Boolean)));
    assert_eq!(dtype_name(&TypeDesc::VarLenArray(nested)), "vlen<vlen<bool>>");
    assert_eq!(dtype_name(&TypeDesc::Other), "other");
}

#[test]
fn no_datatype_is_read_both_ways() {
    let all = [
        TypeDesc::Integer(IntSize::U4),
        TypeDesc::Unsigned(IntSize::U4),
        TypeDesc::Float(FloatSize::U4),
        TypeDesc::Boolean,
        TypeDesc::Enum,
        TypeDesc::Compound,
        TypeDesc::FixedAscii(1),
        TypeDesc::FixedUnicode(1),
        TypeDesc::VarLenAscii,
        TypeDesc::VarLenUnicode,
        TypeDesc::Other,
    ];
    for td in &all {
        assert!(!(is_string(td) && is_numeric(td)));
    }
    assert_eq!(all.iter().filter(|td| is_string(td)).count(), 4);
    assert_eq!(all.iter().filter(|td| is_numeric(td)).count(), 5);
}

#[test]
fn containers_are_read_by_size_and_datatype() {
    let float = Ok(TypeDesc::Float(FloatSize::U8));
    assert!(matches!(read_container(0, &float), ReadStep::Done(Value::Empty)));
    assert!(matches!(read_container(0, &Err("x".to_string())), ReadStep::Done(Value::Empty)));
    assert!(matches!(read_container(MAX_ELEMENTS, &float), ReadStep::Numbers));
    assert_eq!(
        unsupported(read_container(MAX_ELEMENTS + 1, &float)),
        "dataset has 50000001 elements — too large to load"
    );
    assert_eq!(unsupported(read_container(1, &Err("bad".to_string()))), "cannot read datatype: bad");
    assert_eq!(unsupported(read_container(1, &Ok(TypeDesc::Compound))), "unsupported datatype: compound");
    assert!(matches!(
        read_container(2, &Ok(TypeDesc::VarLenUnicode)),
        ReadStep::Strings(StringRead::VarLenUnicode)
    ));
    assert_eq!(
        unsupported(read_container(2, &Ok(TypeDesc::FixedAscii(MAX_FIXED_STR + 1)))),
        "string read failed: string too long (str[4097] bytes)"
    );
}

#[test]
fn strings_are_read_by_their_datatype() {
    assert_eq!(read_strings(&TypeDesc::VarLenAscii), Ok(StringRead::VarLenAscii));
    assert_eq!(read_strings(&TypeDesc::FixedAscii(4096)), Ok(StringRead::FixedAscii));
    assert_eq!(read_strings(&TypeDesc::FixedUnicode(1)), Ok(StringRead::FixedUnicode));
    assert_eq!(
        read_strings(&TypeDesc::FixedUnicode(5000)),
        Err("string too long (str[5000] bytes)".to_string())
    );
}

#[test]
fn failed_reads_say_why() {
    assert!(matches!(strings_value(Ok(strings(&["a"]))), Value::Strings(s) if s == ["a"]));
    assert!(matches!(strings_value(Err("io".to_string())), Value::Unsupported(m) if m == "string read failed: io"));
    assert!(matches!(
        numbers_value(Ok(reals(&[1.0])), vec![1]),
        Value::Numeric { data, shape } if data.len() == 1 && shape == [1]
    ));
    assert!(matches!(
        numbers_value(Err("io".to_string()), vec![]),
        Value::Unsupported(m) if m == "numeric read failed: io"
    ));
}

#[test]
fn values_are_shown_on_one_line() {
    let v = Value::Strings(strings(&["a", "b", "c"]));
    assert_eq!(format_value_short(&v, 2, &vec![]), "a, b");
    assert_eq!(format_value_short(&v, 16, &vec![]), "a, b, c");
    assert_eq!(format_value_short(&Value::Empty, 16, &vec![]), "(empty)");
    assert_eq!(format_value_short(&Value::Unsupported("why".to_string()), 16, &vec![]), "<why>");
    let v = Value::Numeric { data: reals(&[1.0, 2.0, 3.0]), shape: vec![3] };
    assert_eq!(format_value_short(&v, 2, &strings(&["1", "2"])), "1, 2, …");
    assert_eq!(format_value_short(&v, 3, &strings(&["1", "2", "3"])), "1, 2, 3");
    assert_eq!(attribute_text(&Ok(v), &strings(&["1", "2", "3"])), "1, 2, 3");
    assert_eq!(attribute_text(&Err("gone".to_string()), &vec![]), "<gone>");
    let many = Value::Numeric { data: reals(&[0.0; 17]), shape: vec![17] };
    let texts = vec!["0".to_string(); 16];
    assert_eq!(attribute_text(&Ok(many), &texts), format!("{}, …", texts.join(", ")));
}
