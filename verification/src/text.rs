//! Text as sequences of characters: decimal numbers, substrings, ordering and joining.

use crate::order::Ranked;
use vstd::prelude::*;
use vstd::string::*;

verus! {

/// `String::push`: appends one character and leaves what stood before it.
pub assume_specification[ String::push ](s: &mut String, c: char)
    ensures
        final(s)@ == old(s)@.push(c),
;

/// What `str::to_lowercase` makes of a text: the lower case of its characters by the Unicode
/// tables.
pub uninterp spec fn lowercase(s: Seq<char>) -> Seq<char>;

/// `str::to_lowercase`: the result depends on the text alone.
#[verifier::external_body]
pub(crate) fn to_lower(s: &str) -> (r: String)
    ensures
        r@ == lowercase(s@),
{
    s.to_lowercase()
}

/// The characters of a text.
pub fn chars_of(s: &str) -> (v: Vec<char>)
    ensures
        v@ == s@,
{
    let mut v: Vec<char> = Vec::new();
    for c in it: s.chars()
        invariant
            it.seq() == s@,
            v@ == s@.take(it.index()),
    {
        v.push(c);
        assert(s@.take(it.index() + 1) =~= s@.take(it.index()).push(s@[it.index()]));
    }
    assert(s@.take(s@.len() as int) =~= s@);
    v
}

/// The text made of the characters `v[from..to]`.
pub fn cut(v: &Vec<char>, from: usize, to: usize) -> (s: String)
    requires
        from <= to <= v.len(),
    ensures
        s@ == v@.subrange(from as int, to as int),
{
    let mut s = String::new();
    let mut i: usize = from;
    while i < to
        invariant
            from <= i <= to <= v.len(),
            s@ == v@.subrange(from as int, i as int),
        decreases to - i,
    {
        s.push(v[i]);
        assert(v@.subrange(from as int, i + 1) =~= v@.subrange(from as int, i as int).push(
            v@[i as int],
        ));
        i = i + 1;
    }
    s
}

// ---------------------------------------------------------------------------------------------
// Decimal numbers
// ---------------------------------------------------------------------------------------------

pub open spec fn is_digit(c: char) -> bool {
    '0' <= c <= '9'
}

pub open spec fn all_digits(s: Seq<char>) -> bool {
    forall|i: int| 0 <= i < s.len() ==> is_digit(#[trigger] s[i])
}

pub open spec fn digit_value(c: char) -> nat {
    (c as int - '0' as int) as nat
}

pub open spec fn digit_of(d: nat) -> char {
    ('0' as int + d) as char
}

/// The number that a sequence of digits writes in base ten.
pub open spec fn digits_value(s: Seq<char>) -> nat
    decreases s.len(),
{
    if s.len() == 0 {
        0
    } else {
        digits_value(s.drop_last()) * 10 + digit_value(s.last())
    }
}

/// A number written in base ten without leading zeros.
pub open spec fn decimal(n: nat) -> Seq<char>
    decreases n,
{
    if n < 10 {
        seq![digit_of(n)]
    } else {
        decimal(n / 10).push(digit_of(n % 10))
    }
}

/// A number in base ten, with a minus sign in front where it is negative.
pub open spec fn signed_decimal(n: int) -> Seq<char> {
    if n < 0 {
        seq!['-'] + decimal((-n) as nat)
    } else {
        decimal(n as nat)
    }
}

/// Reading back a written number gives the number: digits are lossless.
pub proof fn decimal_reads_back(n: nat)
    ensures
        all_digits(decimal(n)),
        decimal(n).len() > 0,
        digits_value(decimal(n)) == n,
    decreases n,
{
    if n < 10 {
        assert(decimal(n).drop_last() =~= Seq::<char>::empty());
        assert(digits_value(Seq::<char>::empty()) == 0);
    } else {
        decimal_reads_back(n / 10);
        assert(decimal(n).drop_last() =~= decimal(n / 10));
    }
}

/// The digits of a prefix never write a larger number than all the digits.
pub proof fn digits_value_grows(s: Seq<char>, k: int)
    requires
        0 <= k <= s.len(),
    ensures
        digits_value(s.take(k)) <= digits_value(s),
    decreases s.len(),
{
    if k < s.len() {
        digits_value_grows(s.drop_last(), k);
        assert(s.drop_last().take(k) =~= s.take(k));
    } else {
        assert(s.take(k) =~= s);
    }
}

/// `n` in base ten.
pub fn to_decimal(n: u64) -> (s: String)
    ensures
        s@ == decimal(n as nat),
    decreases n,
{
    let mut s = if n < 10 {
        String::new()
    } else {
        to_decimal(n / 10)
    };
    let d: u8 = (n % 10) as u8;
    s.push((48 + d) as char);
    assert(n < 10 ==> s@ =~= decimal(n as nat));
    s
}

/// `n` in base ten, with its sign where it is negative.
pub fn to_signed_decimal(n: i64) -> (s: String)
    ensures
        s@ == signed_decimal(n as int),
{
    if n < 0 {
        let magnitude: u64 = (-(n as i128)) as u64;
        let mut s = String::new();
        s.push('-');
        s.append(to_decimal(magnitude).as_str());
        assert(s@ =~= signed_decimal(n as int));
        s
    } else {
        to_decimal(n as u64)
    }
}

/// The number that a text writes: an optional plus sign, then digits and nothing else, of a
/// value that sixty-four bits hold.
pub open spec fn number_of(s: Seq<char>) -> Option<u64> {
    let d = if s.len() > 0 && s[0] == '+' {
        s.skip(1)
    } else {
        s
    };
    if d.len() > 0 && all_digits(d) && digits_value(d) <= u64::MAX {
        Some(digits_value(d) as u64)
    } else {
        None
    }
}

/// The number that `v[from..to]` writes.
pub fn parse_number(v: &Vec<char>, from: usize, to: usize) -> (r: Option<u64>)
    requires
        from <= to <= v.len(),
    ensures
        r == number_of(v@.subrange(from as int, to as int)),
{
    let ghost s = v@.subrange(from as int, to as int);
    let start: usize = if from < to && v[from] == '+' {
        from + 1
    } else {
        from
    };
    let ghost d = v@.subrange(start as int, to as int);
    assert(d =~= if s.len() > 0 && s[0] == '+' {
        s.skip(1)
    } else {
        s
    });
    if start == to {
        return None;
    }
    let mut total: u64 = 0;
    let mut i: usize = start;
    while i < to
        invariant
            from <= start <= i <= to <= v.len(),
            d == v@.subrange(start as int, to as int),
            all_digits(d.take(i - start)),
            total == digits_value(d.take(i - start)),
            s == v@.subrange(from as int, to as int),
            d == if s.len() > 0 && s[0] == '+' {
                s.skip(1)
            } else {
                s
            },
        decreases to - i,
    {
        let c = v[i];
        assert(c == d[i - start]);
        if c < '0' || '9' < c {
            return None;
        }
        let digit: u64 = (c as u32 - 48) as u64;
        let ghost k = i - start;
        proof {
            assert(d.take(k + 1).drop_last() =~= d.take(k));
            assert(d.take(k + 1).last() == c);
            digits_value_grows(d, k + 1);
        }
        if total > (u64::MAX - digit) / 10 {
            assert(total * 10 + digit > u64::MAX);
            return None;
        }
        total = total * 10 + digit;
        assert forall|j: int| 0 <= j < k + 1 implies is_digit(#[trigger] d.take(k + 1)[j]) by {
            if j < k {
                assert(d.take(k + 1)[j] == d.take(k)[j]);
            }
        }
        i = i + 1;
    }
    assert(d.take(to - start) =~= d);
    Some(total)
}

// ---------------------------------------------------------------------------------------------
// White space
// ---------------------------------------------------------------------------------------------

/// The characters with the Unicode property `White_Space`.
pub open spec fn is_space(c: char) -> bool {
    let u = c as u32;
    ||| 0x09 <= u <= 0x0d
    ||| u == 0x20
    ||| u == 0x85
    ||| u == 0xa0
    ||| u == 0x1680
    ||| 0x2000 <= u <= 0x200a
    ||| u == 0x2028
    ||| u == 0x2029
    ||| u == 0x202f
    ||| u == 0x205f
    ||| u == 0x3000
}

/// Whether `c` is white space.
pub fn white_space(c: char) -> (r: bool)
    ensures
        r == is_space(c),
{
    let u: u32 = c as u32;
    (0x09 <= u && u <= 0x0d) || u == 0x20 || u == 0x85 || u == 0xa0 || u == 0x1680 || (0x2000 <= u
        && u <= 0x200a) || u == 0x2028 || u == 0x2029 || u == 0x202f || u == 0x205f || u == 0x3000
}

/// `s` without the white space that it begins with.
pub open spec fn trimmed_start(s: Seq<char>) -> Seq<char>
    decreases s.len(),
{
    if s.len() > 0 && is_space(s[0]) {
        trimmed_start(s.skip(1))
    } else {
        s
    }
}

/// `s` without the white space that it ends with.
pub open spec fn trimmed_end(s: Seq<char>) -> Seq<char>
    decreases s.len(),
{
    if s.len() > 0 && is_space(s.last()) {
        trimmed_end(s.drop_last())
    } else {
        s
    }
}

/// `s` without the white space at its ends.
pub open spec fn trimmed(s: Seq<char>) -> Seq<char> {
    trimmed_end(trimmed_start(s))
}

/// `s` without the white space at its ends.
pub fn trim(s: &str) -> (r: String)
    ensures
        r@ == trimmed(s@),
{
    let v = chars_of(s);
    let mut a: usize = 0;
    let mut b: usize = v.len();
    assert(v@.subrange(0, b as int) =~= s@);
    while a < b && white_space(v[a])
        invariant
            a <= b == v.len(),
            v@ == s@,
            trimmed_start(v@.subrange(a as int, b as int)) == trimmed_start(s@),
        decreases b - a,
    {
        assert(v@.subrange(a as int, b as int).skip(1) =~= v@.subrange(a + 1, b as int));
        a = a + 1;
    }
    while a < b && white_space(v[b - 1])
        invariant
            a <= b <= v.len(),
            v@ == s@,
            trimmed_end(v@.subrange(a as int, b as int)) == trimmed(s@),
        decreases b - a,
    {
        assert(v@.subrange(a as int, b as int).drop_last() =~= v@.subrange(a as int, b - 1));
        b = b - 1;
    }
    cut(&v, a, b)
}

// ---------------------------------------------------------------------------------------------
// Prefixes, suffixes, substrings
// ---------------------------------------------------------------------------------------------

/// Whether `part` stands in `s` at position `i`.
pub open spec fn stands_at(s: Seq<char>, part: Seq<char>, i: int) -> bool {
    0 <= i && i + part.len() <= s.len() && s.subrange(i, i + part.len()) == part
}

/// Whether `part` stands somewhere in `s`.
pub open spec fn contains_text(s: Seq<char>, part: Seq<char>) -> bool {
    exists|i: int| stands_at(s, part, i)
}

pub open spec fn starts_with(s: Seq<char>, part: Seq<char>) -> bool {
    stands_at(s, part, 0)
}

pub open spec fn ends_with(s: Seq<char>, part: Seq<char>) -> bool {
    stands_at(s, part, s.len() - part.len())
}

/// Whether `part` stands in `v` at position `at`.
pub fn stands_here(v: &Vec<char>, part: &Vec<char>, at: usize) -> (r: bool)
    ensures
        r == stands_at(v@, part@, at as int),
{
    if at > v.len() || part.len() > v.len() - at {
        return false;
    }
    let mut i: usize = 0;
    while i < part.len()
        invariant
            at + part.len() <= v.len(),
            i <= part.len(),
            forall|j: int| 0 <= j < i ==> v@[at + j] == part@[j],
        decreases part.len() - i,
    {
        if v[at + i] != part[i] {
            assert(v@.subrange(at as int, at + part.len())[i as int] != part@[i as int]);
            return false;
        }
        i = i + 1;
    }
    assert(v@.subrange(at as int, at + part.len()) =~= part@);
    true
}

/// Whether `part` stands somewhere in `s`.
pub fn has_text(s: &str, part: &str) -> (r: bool)
    ensures
        r == contains_text(s@, part@),
{
    let v = chars_of(s);
    let p = chars_of(part);
    if p.len() > v.len() {
        return false;
    }
    let last: usize = v.len() - p.len();
    let mut i: usize = 0;
    while i <= last
        invariant
            v@ == s@,
            p@ == part@,
            last == v.len() - p.len(),
            i <= last + 1,
            forall|j: int| 0 <= j < i ==> !stands_at(s@, part@, j),
        decreases last + 1 - i,
    {
        if stands_here(&v, &p, i) {
            assert(stands_at(s@, part@, i as int));
            return true;
        }
        if i == last {
            return false;
        }
        i = i + 1;
    }
    false
}

/// Whether `s` begins with `part`.
pub fn begins_with(s: &str, part: &str) -> (r: bool)
    ensures
        r == starts_with(s@, part@),
{
    stands_here(&chars_of(s), &chars_of(part), 0)
}

/// What follows `part` in `s`, where `s` begins with it.
pub fn after_prefix(s: &str, part: &str) -> (r: Option<String>)
    ensures
        match r {
            Some(rest) => starts_with(s@, part@) && rest@ == s@.skip(part@.len() as int),
            None => !starts_with(s@, part@),
        },
{
    let v = chars_of(s);
    let p = chars_of(part);
    if stands_here(&v, &p, 0) {
        let rest = cut(&v, p.len(), v.len());
        assert(rest@ =~= s@.skip(part@.len() as int));
        Some(rest)
    } else {
        None
    }
}

/// What stands before `part` in `s`, where `s` ends with it.
pub fn before_suffix(s: &str, part: &str) -> (r: Option<String>)
    ensures
        match r {
            Some(rest) => ends_with(s@, part@) && rest@ == s@.take(s@.len() - part@.len()),
            None => !ends_with(s@, part@),
        },
{
    let v = chars_of(s);
    let p = chars_of(part);
    if p.len() <= v.len() && stands_here(&v, &p, v.len() - p.len()) {
        let rest = cut(&v, 0, v.len() - p.len());
        assert(rest@ =~= s@.take(s@.len() - part@.len()));
        Some(rest)
    } else {
        None
    }
}

/// `s` without any copy of `part` at its end.
pub open spec fn without_suffixes(s: Seq<char>, part: Seq<char>) -> Seq<char>
    decreases s.len(),
{
    if part.len() > 0 && ends_with(s, part) {
        without_suffixes(s.take(s.len() - part.len()), part)
    } else {
        s
    }
}

/// `s` without any copy of `part` at its end.
pub fn drop_suffixes(s: &str, part: &str) -> (r: String)
    requires
        part@.len() > 0,
    ensures
        r@ == without_suffixes(s@, part@),
{
    let p = chars_of(part);
    let mut w = chars_of(s);
    while p.len() <= w.len() && stands_here(&w, &p, w.len() - p.len())
        invariant
            p@ == part@,
            p.len() > 0,
            without_suffixes(w@, part@) == without_suffixes(s@, part@),
        decreases w.len(),
    {
        let n: usize = w.len() - p.len();
        assert(w@.subrange(0, n as int) =~= w@.take(n as int));
        w.truncate(n);
    }
    cut(&w, 0, w.len())
}

/// Whether two texts are the same.
pub fn same_text(a: &str, b: &str) -> (r: bool)
    ensures
        r == (a@ == b@),
{
    let v = chars_of(a);
    let w = chars_of(b);
    if v.len() != w.len() {
        return false;
    }
    let r = stands_here(&v, &w, 0);
    assert(v@.subrange(0, w.len() as int) =~= v@);
    r
}

// ---------------------------------------------------------------------------------------------
// Order
// ---------------------------------------------------------------------------------------------

/// Texts are ordered by their first difference, and a text stands before its continuations.
pub open spec fn text_at_most(a: Seq<char>, b: Seq<char>) -> bool
    decreases a.len(),
{
    if a.len() == 0 {
        true
    } else if b.len() == 0 {
        false
    } else if a[0] == b[0] {
        text_at_most(a.skip(1), b.skip(1))
    } else {
        a[0] < b[0]
    }
}

proof fn text_order_is_total(a: Seq<char>, b: Seq<char>)
    ensures
        text_at_most(a, b) || text_at_most(b, a),
    decreases a.len(),
{
    if a.len() > 0 && b.len() > 0 && a[0] == b[0] {
        text_order_is_total(a.skip(1), b.skip(1));
    }
}

proof fn text_order_is_transitive(a: Seq<char>, b: Seq<char>, c: Seq<char>)
    requires
        text_at_most(a, b),
        text_at_most(b, c),
    ensures
        text_at_most(a, c),
    decreases a.len(),
{
    if a.len() > 0 && a[0] == b[0] && b[0] == c[0] {
        text_order_is_transitive(a.skip(1), b.skip(1), c.skip(1));
    }
}

/// Texts that stand before each other are the same.
pub proof fn text_order_is_strict(a: Seq<char>, b: Seq<char>)
    requires
        text_at_most(a, b),
        text_at_most(b, a),
    ensures
        a == b,
    decreases a.len(),
{
    if a.len() > 0 && b.len() > 0 {
        text_order_is_strict(a.skip(1), b.skip(1));
        assert(a =~= seq![a[0]] + a.skip(1));
        assert(b =~= seq![b[0]] + b.skip(1));
    } else {
        assert(a =~= b);
    }
}

impl Ranked for String {
    open spec fn at_most(a: Seq<char>, b: Seq<char>) -> bool {
        text_at_most(a, b)
    }

    proof fn at_most_is_total(a: Seq<char>, b: Seq<char>) {
        text_order_is_total(a, b);
        assert(Self::at_most(a, b) == text_at_most(a, b));
        assert(Self::at_most(b, a) == text_at_most(b, a));
    }

    proof fn at_most_is_transitive(a: Seq<char>, b: Seq<char>, c: Seq<char>) {
        text_order_is_transitive(a, b, c);
    }

    fn is_at_most(&self, other: &String) -> (r: bool) {
        let v = chars_of(self.as_str());
        let w = chars_of(other.as_str());
        let mut i: usize = 0;
        assert(v@.skip(0) =~= self@);
        assert(w@.skip(0) =~= other@);
        while i < v.len() && i < w.len()
            invariant
                i <= v.len(),
                i <= w.len(),
                v@ == self@,
                w@ == other@,
                text_at_most(v@.skip(i as int), w@.skip(i as int)) == text_at_most(self@, other@),
            decreases v.len() - i,
        {
            if v[i] != w[i] {
                return v[i] < w[i];
            }
            assert(v@.skip(i as int).skip(1) =~= v@.skip(i + 1));
            assert(w@.skip(i as int).skip(1) =~= w@.skip(i + 1));
            i = i + 1;
        }
        i == v.len()
    }
}

// ---------------------------------------------------------------------------------------------
// Joining and cutting off
// ---------------------------------------------------------------------------------------------

/// The texts one after the other, with `sep` between neighbours.
pub open spec fn joined(parts: Seq<Seq<char>>, sep: Seq<char>) -> Seq<char>
    decreases parts.len(),
{
    if parts.len() == 0 {
        Seq::empty()
    } else if parts.len() == 1 {
        parts[0]
    } else {
        joined(parts.drop_last(), sep) + sep + parts.last()
    }
}

/// The texts one after the other, with `sep` between neighbours.
pub fn join(parts: &Vec<String>, sep: &str) -> (r: String)
    ensures
        r@ == joined(crate::order::views(parts@), sep@),
{
    let ghost all = crate::order::views(parts@);
    let mut r = String::new();
    let mut i: usize = 0;
    while i < parts.len()
        invariant
            all == crate::order::views(parts@),
            i <= parts.len(),
            r@ == joined(all.take(i as int), sep@),
        decreases parts.len() - i,
    {
        let ghost next = all.take(i + 1);
        assert(next.drop_last() =~= all.take(i as int));
        if i > 0 {
            r.append(sep);
        }
        r.append(parts[i].as_str());
        assert(i == 0 ==> r@ =~= next[0]);
        i = i + 1;
    }
    assert(all.take(i as int) =~= all);
    r
}

/// `s` where it has at most `max` characters, else its first `max` and an ellipsis.
pub open spec fn truncated(s: Seq<char>, max: nat) -> Seq<char> {
    if s.len() <= max {
        s
    } else {
        s.take(max as int).push('…')
    }
}

/// `s` where it has at most `max` characters, else its first `max` and an ellipsis.
pub fn truncate(s: &str, max: usize) -> (r: String)
    ensures
        r@ == truncated(s@, max as nat),
{
    let v = chars_of(s);
    if v.len() <= max {
        let r = cut(&v, 0, v.len());
        assert(r@ =~= s@);
        r
    } else {
        let mut r = cut(&v, 0, max);
        assert(r@ =~= s@.take(max as int));
        r.push('…');
        r
    }
}

// ---------------------------------------------------------------------------------------------
// Laws
// ---------------------------------------------------------------------------------------------

/// A text stands in another exactly where that is made of something, the text, and something.
pub proof fn contained_text_is_in_the_middle(s: Seq<char>, part: Seq<char>)
    ensures
        contains_text(s, part) <==> exists|a: Seq<char>, b: Seq<char>| s == #[trigger] (a + part + b),
{
    if contains_text(s, part) {
        let i = choose|i: int| stands_at(s, part, i);
        let a = s.take(i);
        let b = s.skip(i + part.len());
        assert(s =~= a + part + b) by {
            assert forall|k: int| 0 <= k < s.len() implies s[k] == (a + part + b)[k] by {
                if i <= k < i + part.len() {
                    assert(s.subrange(i, i + part.len())[k - i] == s[k]);
                }
            }
        }
    }
    if exists|a: Seq<char>, b: Seq<char>| s == #[trigger] (a + part + b) {
        let (a, b) = choose|a: Seq<char>, b: Seq<char>| s == #[trigger] (a + part + b);
        assert(s.subrange(a.len() as int, (a.len() + part.len()) as int) =~= part);
        assert(stands_at(s, part, a.len() as int));
    }
}

/// A text begins with another exactly where it is that text and something after it.
pub proof fn prefix_is_in_front(s: Seq<char>, part: Seq<char>)
    ensures
        starts_with(s, part) <==> exists|rest: Seq<char>| s == #[trigger] (part + rest),
{
    if starts_with(s, part) {
        let rest = s.skip(part.len() as int);
        assert forall|k: int| 0 <= k < part.len() implies s[k] == part[k] by {
            assert(s.subrange(0, part.len() as int)[k] == s[k]);
        }
        assert(s =~= part + rest);
    }
    if exists|rest: Seq<char>| s == #[trigger] (part + rest) {
        let rest = choose|rest: Seq<char>| s == #[trigger] (part + rest);
        assert(s.subrange(0, part.len() as int) =~= part);
    }
}

/// A text ends with another exactly where it is something and that text after it.
pub proof fn suffix_is_behind(s: Seq<char>, part: Seq<char>)
    ensures
        ends_with(s, part) <==> exists|front: Seq<char>| s == #[trigger] (front + part),
{
    let n = s.len() - part.len();
    if ends_with(s, part) {
        let front = s.take(n);
        assert forall|k: int| n <= k < s.len() implies s[k] == part[k - n] by {
            assert(s.subrange(n, s.len() as int)[k - n] == s[k]);
        }
        assert(s =~= front + part);
    }
    if exists|front: Seq<char>| s == #[trigger] (front + part) {
        let front = choose|front: Seq<char>| s == #[trigger] (front + part);
        assert(s.subrange(n, s.len() as int) =~= part);
    }
}

/// What is left without suffixes does not end with the suffix; a text that does not end with it
/// stays, and one more copy at the end makes no difference.
pub proof fn suffixes_are_dropped(s: Seq<char>, part: Seq<char>)
    requires
        part.len() > 0,
    ensures
        !ends_with(without_suffixes(s, part), part),
        !ends_with(s, part) ==> without_suffixes(s, part) == s,
        without_suffixes(s + part, part) == without_suffixes(s, part),
    decreases s.len(),
{
    let t = s + part;
    assert(t.subrange(t.len() - part.len(), t.len() as int) =~= part);
    assert(ends_with(t, part));
    assert(t.take(t.len() - part.len()) =~= s);
    if ends_with(s, part) {
        suffixes_are_dropped(s.take(s.len() - part.len()), part);
    }
}

/// A digit put behind digits makes ten times their number, and the digit more.
pub proof fn digits_count_in_tens(s: Seq<char>, c: char)
    requires
        '0' <= c <= '9',
    ensures
        digits_value(s.push(c)) == 10 * digits_value(s) + (c as int - '0' as int),
        digits_value(Seq::<char>::empty()) == 0,
{
    assert(s.push(c).drop_last() =~= s);
}

/// A written number has only digits, and no zero in front but for zero itself.
pub proof fn decimal_has_no_leading_zero(n: nat)
    ensures
        decimal(n).len() > 0,
        forall|i: int| 0 <= i < decimal(n).len() ==> '0' <= #[trigger] decimal(n)[i] <= '9',
        n > 0 ==> decimal(n)[0] != '0',
        n == 0 ==> decimal(n) == seq!['0'],
    decreases n,
{
    decimal_reads_back(n);
    if n >= 10 {
        decimal_has_no_leading_zero(n / 10);
        assert(decimal(n)[0] == decimal(n / 10)[0]);
    }
    assert forall|i: int| 0 <= i < decimal(n).len() implies '0' <= #[trigger] decimal(n)[i] <= '9' by {
        assert(is_digit(decimal(n)[i]));
    }
}

/// A negative number is written as its absolute value with a minus sign in front.
pub proof fn signed_decimal_has_its_sign(n: nat)
    ensures
        signed_decimal(n as int) == decimal(n),
        n > 0 ==> signed_decimal(-n) == seq!['-'] + decimal(n),
{
}

/// Digits write their number, with or without a plus sign in front, where it is below two to the
/// sixty-fourth; with any other character there is no number.
pub proof fn numbers_are_digits(s: Seq<char>)
    ensures
        s.len() == 0 ==> number_of(s) is None,
        s.len() > 0 && (forall|i: int| 0 <= i < s.len() ==> '0' <= #[trigger] s[i] <= '9') ==> {
            &&& digits_value(s) <= u64::MAX ==> number_of(s) == Some(digits_value(s) as u64)
            &&& digits_value(s) > u64::MAX ==> number_of(s) is None
            &&& number_of(seq!['+'] + s) == number_of(s)
        },
        (exists|i: int| 0 < i < s.len() && !('0' <= #[trigger] s[i] <= '9')) ==> number_of(s) is None,
        s.len() > 0 && s[0] != '+' && !('0' <= s[0] <= '9') ==> number_of(s) is None,
        s == seq!['+'] ==> number_of(s) is None,
{
    if s.len() > 0 && (forall|i: int| 0 <= i < s.len() ==> '0' <= #[trigger] s[i] <= '9') {
        assert forall|i: int| 0 <= i < s.len() implies is_digit(#[trigger] s[i]) by {}
        assert('0' <= s[0] <= '9');
        assert((seq!['+'] + s).skip(1) =~= s);
    }
    if exists|i: int| 0 < i < s.len() && !('0' <= #[trigger] s[i] <= '9') {
        let i = choose|i: int| 0 < i < s.len() && !('0' <= #[trigger] s[i] <= '9');
        assert(!is_digit(s[i]));
        assert(s.skip(1)[i - 1] == s[i]);
        assert(!is_digit(s.skip(1)[i - 1]));
    }
    if s.len() > 0 && s[0] != '+' && !('0' <= s[0] <= '9') {
        assert(!is_digit(s[0]));
    }
}

/// A written number is read as it is.
pub proof fn written_number_reads_back(n: u64)
    ensures
        number_of(decimal(n as nat)) == Some(n),
        number_of(seq!['+'] + decimal(n as nat)) == Some(n),
{
    let d = decimal(n as nat);
    decimal_reads_back(n as nat);
    decimal_has_no_leading_zero(n as nat);
    numbers_are_digits(d);
}

/// No visible character of ASCII is white space; the space, the tab and the line ends are.
pub proof fn spaces_are_invisible(c: char)
    ensures
        '!' <= c <= '~' ==> !is_space(c),
        c == ' ' || c == '\t' || c == '\n' || c == '\r' ==> is_space(c),
{
}

/// Whether a text is white space throughout.
pub open spec fn is_blank(s: Seq<char>) -> bool {
    forall|i: int| 0 <= i < s.len() ==> is_space(#[trigger] s[i])
}

/// Trimming takes away the white space around a text, and nothing else.
pub proof fn trimming_takes_blanks(a: Seq<char>, s: Seq<char>, b: Seq<char>)
    requires
        is_blank(a),
        is_blank(b),
        s.len() > 0 ==> !is_space(s[0]) && !is_space(s.last()),
    ensures
        trimmed(a + s + b) == s,
{
    let t = a + s + b;
    if s.len() == 0 {
        assert forall|i: int| 0 <= i < t.len() implies is_space(#[trigger] t[i]) by {
            if i < a.len() {
                assert(is_space(a[i]));
            } else {
                assert(is_space(b[i - a.len()]));
            }
        }
        trim_start_of_blank(t, Seq::empty());
        assert(t + Seq::<char>::empty() =~= t);
        assert(trimmed(t) =~= s);
    } else {
        trim_start_of_blank(a, s + b);
        assert(a + (s + b) =~= t);
        trim_end_of_blank(s, b);
    }
}

proof fn trim_start_of_blank(a: Seq<char>, s: Seq<char>)
    requires
        is_blank(a),
        s.len() > 0 ==> !is_space(s[0]),
    ensures
        trimmed_start(a + s) == s,
    decreases a.len(),
{
    if a.len() > 0 {
        assert(is_space(a[0]));
        assert((a + s).skip(1) =~= a.skip(1) + s);
        assert(is_blank(a.skip(1))) by {
            assert forall|i: int| 0 <= i < a.skip(1).len() implies is_space(
                #[trigger] a.skip(1)[i],
            ) by {
                assert(is_space(a[i + 1]));
            }
        }
        trim_start_of_blank(a.skip(1), s);
    } else {
        assert(a + s =~= s);
    }
}

proof fn trim_end_of_blank(s: Seq<char>, b: Seq<char>)
    requires
        is_blank(b),
        s.len() > 0 ==> !is_space(s.last()),
    ensures
        trimmed_end(s + b) == s,
    decreases b.len(),
{
    if b.len() > 0 {
        assert(is_space(b[b.len() - 1]));
        assert((s + b).drop_last() =~= s + b.drop_last());
        assert(is_blank(b.drop_last())) by {
            assert forall|i: int| 0 <= i < b.drop_last().len() implies is_space(
                #[trigger] b.drop_last()[i],
            ) by {
                assert(is_space(b[i]));
            }
        }
        trim_end_of_blank(s, b.drop_last());
    } else {
        assert(s + b =~= s);
    }
}

/// What two texts begin with alike makes no difference to their order; then the first difference
/// decides, and a text stands before its continuations.
pub proof fn text_order_goes_by_first_difference(p: Seq<char>, a: Seq<char>, b: Seq<char>)
    ensures
        text_at_most(p + a, p + b) == text_at_most(a, b),
        text_at_most(p, p + a),
        a.len() > 0 ==> !text_at_most(p + a, p),
        a.len() > 0 && b.len() > 0 && a[0] < b[0] ==> text_at_most(p + a, p + b) && !text_at_most(
            p + b,
            p + a,
        ),
    decreases p.len(),
{
    if p.len() > 0 {
        let q = p.skip(1);
        text_order_goes_by_first_difference(q, a, b);
        assert((p + a).skip(1) =~= q + a);
        assert((p + b).skip(1) =~= q + b);
        assert((p + a)[0] == p[0] && (p + b)[0] == p[0]);
    } else {
        assert(p + a =~= a);
        assert(p + b =~= b);
    }
}

/// Texts joined in two lots are joined with the separator between the lots; a single one stays as
/// it is, and none make nothing.
pub proof fn joining_puts_separators_between(
    a: Seq<Seq<char>>,
    b: Seq<Seq<char>>,
    s: Seq<char>,
    sep: Seq<char>,
)
    ensures
        joined(Seq::<Seq<char>>::empty(), sep) == Seq::<char>::empty(),
        joined(seq![s], sep) == s,
        a.len() > 0 && b.len() > 0 ==> joined(a + b, sep) == joined(a, sep) + sep + joined(b, sep),
    decreases b.len(),
{
    if a.len() > 0 && b.len() > 0 {
        let all = a + b;
        let init = b.drop_last();
        assert(all.last() == b.last());
        assert(all.drop_last() =~= a + init);
        if init.len() > 0 {
            joining_puts_separators_between(a, init, s, sep);
            assert(joined(all, sep) =~= joined(a, sep) + sep + joined(b, sep));
        } else {
            assert(a + init =~= a);
            assert(b[0] == b.last());
        }
    }
}

/// A text that is cut off keeps what it begins with, and an ellipsis stands for the rest.
pub proof fn truncating_keeps_the_front(s: Seq<char>, max: nat)
    ensures
        s.len() <= max ==> truncated(s, max) == s,
        s.len() > max ==> {
            &&& truncated(s, max).len() == max + 1
            &&& truncated(s, max).last() == '…'
            &&& forall|i: int| 0 <= i < max ==> #[trigger] truncated(s, max)[i] == s[i]
        },
{
}

/// The white space characters, one by one.
pub proof fn spaces_are_these(c: char)
    ensures
        is_space(c) <==> c == ' ' || c == '\t' || c == '\n' || c == '\u{b}' || c == '\u{c}' || c == '\r'
            || c == '\u{85}' || c == '\u{a0}' || c == '\u{1680}' || c == '\u{2028}' || c == '\u{2029}'
            || c == '\u{202f}' || c == '\u{205f}' || c == '\u{3000}' || '\u{2000}' <= c <= '\u{200a}',
{
}

} // verus!
