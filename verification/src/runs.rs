//! Run numbers: lists that a user types, and the numbers that file names end with.

use crate::order::{comes_before, is_stable_order, stable_order, stable_order_is_onto, views};
use crate::text::{
    all_digits, chars_of, decimal, decimal_has_no_leading_zero, decimal_reads_back, digits_value,
    is_digit, is_space, number_of, numbers_are_digits, parse_number, spaces_are_invisible,
    white_space,
};
use vstd::prelude::*;

verus! {

// ---------------------------------------------------------------------------------------------
// Run lists
// ---------------------------------------------------------------------------------------------

/// What separates the entries of a run list.
pub open spec fn is_break(c: char) -> bool {
    c == ',' || is_space(c)
}

/// How many characters stand before the first separator.
pub open spec fn word_len(s: Seq<char>) -> nat
    decreases s.len(),
{
    if s.len() == 0 || is_break(s[0]) {
        0
    } else {
        1 + word_len(s.skip(1))
    }
}

/// The first entry ends within the text.
pub proof fn word_len_is_bounded(s: Seq<char>)
    ensures
        word_len(s) <= s.len(),
    decreases s.len(),
{
    if s.len() > 0 && !is_break(s[0]) {
        word_len_is_bounded(s.skip(1));
    }
}

/// The entries of a run list: the longest stretches without a separator.
pub open spec fn words(s: Seq<char>) -> Seq<Seq<char>>
    decreases s.len(),
{
    if s.len() == 0 {
        Seq::empty()
    } else if is_break(s[0]) {
        words(s.skip(1))
    } else {
        proof {
            word_len_is_bounded(s);
        }
        seq![s.take(word_len(s) as int)] + words(s.skip(word_len(s) as int))
    }
}

/// How many characters stand before the first hyphen.
pub open spec fn hyphen_at(s: Seq<char>) -> nat
    decreases s.len(),
{
    if s.len() == 0 || s[0] == '-' {
        0
    } else {
        1 + hyphen_at(s.skip(1))
    }
}

/// The runs that one entry asks for, both ends included: a number, or two numbers with a
/// hyphen between them, in either order.
pub open spec fn range_of(word: Seq<char>) -> Option<(u64, u64)> {
    let h = hyphen_at(word);
    if h < word.len() {
        match (number_of(word.take(h as int)), number_of(word.skip(h as int + 1))) {
            (Some(a), Some(b)) => Some(if a <= b {
                (a, b)
            } else {
                (b, a)
            }),
            _ => None,
        }
    } else {
        match number_of(word) {
            Some(n) => Some((n, n)),
            None => None,
        }
    }
}

/// The ranges of a run list, one for each entry; nothing where there is no entry or where an
/// entry is not a number or a range.
pub open spec fn ranges_of(s: Seq<char>) -> Option<Seq<(u64, u64)>> {
    let w = words(s);
    if w.len() > 0 && forall|i: int| 0 <= i < w.len() ==> range_of(#[trigger] w[i]) is Some {
        Some(Seq::new(w.len(), |i: int| range_of(w[i])->0))
    } else {
        None
    }
}

/// The ranges of a run list have their bounds in order.
pub proof fn ranges_are_in_order(s: Seq<char>, i: int)
    requires
        ranges_of(s) is Some,
        0 <= i < ranges_of(s)->0.len(),
    ensures
        (ranges_of(s)->0)[i].0 <= (ranges_of(s)->0)[i].1,
{
    assert(range_of(words(s)[i]) is Some);
}

/// A text without hyphens has none to split at.
proof fn no_hyphen_before(d: Seq<char>, rest: Seq<char>)
    requires
        all_digits(d),
    ensures
        hyphen_at(d + rest) == d.len() + hyphen_at(rest),
    decreases d.len(),
{
    if d.len() > 0 {
        assert((d + rest)[0] == d[0]);
        assert(is_digit(d[0]));
        assert((d + rest).skip(1) =~= d.skip(1) + rest);
        assert forall|i: int| 0 <= i < d.skip(1).len() implies is_digit(#[trigger] d.skip(1)[i]) by {
            assert(is_digit(d[i + 1]));
        }
        no_hyphen_before(d.skip(1), rest);
    } else {
        assert(d + rest =~= rest);
    }
}

/// A written number reads as that number.
proof fn decimal_is_a_number(n: u64)
    ensures
        number_of(decimal(n as nat)) == Some(n),
{
    decimal_reads_back(n as nat);
    assert(is_digit(decimal(n as nat)[0]));
}

/// An entry that writes two runs with a hyphen between them asks for the runs from the lower to
/// the higher, and one that writes a single run asks for it.
pub proof fn written_runs_read_back(a: u64, b: u64)
    ensures
        range_of(decimal(a as nat)) == Some((a, a)),
        range_of(decimal(a as nat) + seq!['-'] + decimal(b as nat)) == Some(
            if a <= b {
                (a, b)
            } else {
                (b, a)
            },
        ),
{
    let (x, y) = (decimal(a as nat), decimal(b as nat));
    decimal_reads_back(a as nat);
    decimal_is_a_number(a);
    decimal_is_a_number(b);
    no_hyphen_before(x, Seq::empty());
    assert(x + Seq::empty() =~= x);
    assert(hyphen_at(Seq::<char>::empty()) == 0);
    let word = x + seq!['-'] + y;
    no_hyphen_before(x, seq!['-'] + y);
    assert(x + (seq!['-'] + y) =~= word);
    assert((seq!['-'] + y)[0] == '-');
    assert(word.take(x.len() as int) =~= x);
    assert(word.skip(x.len() as int + 1) =~= y);
}

/// "26871-26970, 27012 27040-27045" gives inclusive (low, high) ranges; `None` where an entry
/// is not a number or a range of two numbers, or where there is none.
pub fn parse_run_ranges(s: &str) -> (r: Option<Vec<(u64, u64)>>)
    ensures
        match r {
            Some(v) => ranges_of(s@) == Some(v@),
            None => ranges_of(s@) is None,
        },
{
    let v = chars_of(s);
    let mut out: Vec<(u64, u64)> = Vec::new();
    let mut i: usize = 0;
    let ghost all = words(s@);
    assert(v@.skip(0) =~= s@);
    while i < v.len()
        invariant
            v@ == s@,
            all == words(s@),
            i <= v.len(),
            out.len() <= all.len(),
            words(v@.skip(i as int)) == all.skip(out.len() as int),
            forall|k: int| 0 <= k < out.len() ==> range_of(#[trigger] all[k]) == Some(out@[k]),
        decreases v.len() - i,
    {
        let ghost rest = v@.skip(i as int);
        if v[i] == ',' || white_space(v[i]) {
            assert(rest.skip(1) =~= v@.skip(i + 1));
            i = i + 1;
        } else {
            let end = word_end(&v, i);
            let ghost word = rest.take(word_len(rest) as int);
            proof {
                word_len_is_bounded(rest);
                assert(word =~= v@.subrange(i as int, end as int));
                assert(rest.skip(word_len(rest) as int) =~= v@.skip(end as int));
                assert(words(rest)[0] == word);
                assert(all.skip(out.len() as int).len() > 0);
                assert(all[out.len() as int] == all.skip(out.len() as int)[0]);
                assert(words(rest).skip(1) =~= words(v@.skip(end as int)));
                assert(all.skip(out.len() as int).skip(1) =~= all.skip(out.len() + 1));
            }
            match parse_range(&v, i, end) {
                Some(range) => {
                    out.push(range);
                },
                None => {
                    assert(range_of(all[out.len() as int]) is None);
                    return None;
                },
            }
            i = end;
        }
    }
    assert(v@.skip(i as int) =~= Seq::<char>::empty());
    assert(all.skip(out.len() as int).len() == 0);
    if out.len() == 0 {
        None
    } else {
        assert(ranges_of(s@)->0 =~= out@);
        Some(out)
    }
}

/// Where the entry that begins at `from` ends.
fn word_end(v: &Vec<char>, from: usize) -> (end: usize)
    requires
        from < v.len(),
        !is_break(v@[from as int]),
    ensures
        from < end <= v.len(),
        end == from + word_len(v@.skip(from as int)),
{
    let mut end: usize = from;
    while end < v.len() && !(v[end] == ',' || white_space(v[end]))
        invariant
            from <= end <= v.len(),
            from + word_len(v@.skip(from as int)) == end + word_len(v@.skip(end as int)),
        decreases v.len() - end,
    {
        assert(v@.skip(end as int).skip(1) =~= v@.skip(end + 1));
        end = end + 1;
    }
    end
}

/// The runs that the entry `v[from..to]` asks for.
fn parse_range(v: &Vec<char>, from: usize, to: usize) -> (r: Option<(u64, u64)>)
    requires
        from <= to <= v.len(),
    ensures
        r == range_of(v@.subrange(from as int, to as int)),
{
    let ghost word = v@.subrange(from as int, to as int);
    let mut h: usize = from;
    assert(v@.subrange(h as int, to as int) =~= word);
    while h < to && v[h] != '-'
        invariant
            from <= h <= to <= v.len(),
            word == v@.subrange(from as int, to as int),
            hyphen_at(word) == h - from + hyphen_at(v@.subrange(h as int, to as int)),
        decreases to - h,
    {
        assert(v@.subrange(h as int, to as int).skip(1) =~= v@.subrange(h + 1, to as int));
        h = h + 1;
    }
    if h < to {
        assert(word.take(h - from) =~= v@.subrange(from as int, h as int));
        assert(word.skip(h - from + 1) =~= v@.subrange(h + 1, to as int));
        match (parse_number(v, from, h), parse_number(v, h + 1, to)) {
            (Some(a), Some(b)) => Some(
                if a <= b {
                    (a, b)
                } else {
                    (b, a)
                },
            ),
            _ => None,
        }
    } else {
        match parse_number(v, from, to) {
            Some(n) => Some((n, n)),
            None => None,
        }
    }
}

// ---------------------------------------------------------------------------------------------
// Counting runs
// ---------------------------------------------------------------------------------------------

/// Whether one of the ranges asks for run `n`.
pub open spec fn asks_for(ranges: Seq<(u64, u64)>, n: int) -> bool {
    exists|i: int| 0 <= i < ranges.len() && #[trigger] ranges[i].0 <= n <= ranges[i].1
}

/// The runs that the ranges ask for.
pub open spec fn asked_runs(ranges: Seq<(u64, u64)>) -> Set<int> {
    Set::new(|n: int| asks_for(ranges, n))
}

/// Whether one of the ranges asks for run `n`.
pub fn is_asked_for(ranges: &[(u64, u64)], n: u64) -> (r: bool)
    ensures
        r == asks_for(ranges@, n as int),
{
    let mut i: usize = 0;
    while i < ranges.len()
        invariant
            i <= ranges.len(),
            forall|k: int| 0 <= k < i ==> !(#[trigger] ranges@[k].0 <= n <= ranges@[k].1),
        decreases ranges.len() - i,
    {
        let range: (u64, u64) = ranges[i];
        if range.0 <= n && n <= range.1 {
            assert(ranges@[i as int].0 <= n <= ranges@[i as int].1);
            return true;
        }
        i = i + 1;
    }
    false
}

/// There are no more runs than sixty-four bit numbers.
pub proof fn asked_runs_are_finite(ranges: Seq<(u64, u64)>)
    ensures
        asked_runs(ranges).finite(),
        asked_runs(ranges).len() <= u64::MAX + 1,
{
    let all = vstd::set_lib::set_int_range(0, u64::MAX + 1);
    vstd::set_lib::lemma_int_range(0, u64::MAX + 1);
    assert(asked_runs(ranges).subset_of(all));
    vstd::set_lib::lemma_len_subset(asked_runs(ranges), all);
}

/// The part of `s` below `bound`, and with the stretch `[bound, end]` added.
proof fn stretch_adds_its_length(s: Set<int>, bound: int, end: int)
    requires
        s.finite(),
        forall|n: int| s.contains(n) ==> n < bound,
        bound <= end + 1,
    ensures
        s.union(vstd::set_lib::set_int_range(bound, end + 1)).finite(),
        s.union(vstd::set_lib::set_int_range(bound, end + 1)).len() == s.len() + (end + 1 - bound),
{
    let t = vstd::set_lib::set_int_range(bound, end + 1);
    vstd::set_lib::lemma_int_range(bound, end + 1);
    vstd::set_lib::lemma_set_disjoint_lens(s, t);
}

/// How many distinct runs the ranges ask for; a range whose bounds are crossed asks for none.
pub fn asked_run_count(ranges: &[(u64, u64)]) -> (total: u128)
    ensures
        total == asked_runs(ranges@).len(),
        total <= u64::MAX + 1,
{
    let mut keys: Vec<(u64, u64)> = Vec::new();
    let mut i: usize = 0;
    while i < ranges.len()
        invariant
            i <= ranges.len(),
            keys@ == ranges@.take(i as int),
        decreases ranges.len() - i,
    {
        keys.push(ranges[i]);
        assert(ranges@.take(i + 1) =~= ranges@.take(i as int).push(ranges@[i as int]));
        i = i + 1;
    }
    assert(keys@ =~= ranges@);
    assert(views(keys@) =~= ranges@);
    let order = stable_order(&keys);
    let ghost sorted = Seq::new(order@.len(), |k: int| ranges@[order@[k] as int]);
    // The runs counted so far, and the stretch that may still grow.
    let mut total: u128 = 0;
    let mut open: Option<(u64, u64)> = None;
    let ghost mut closed: Set<int> = Set::empty();
    let mut k: usize = 0;
    assert(asked_runs(sorted.take(0)) =~= Set::empty());
    while k < order.len()
        invariant
            keys@ == ranges@,
            is_stable_order::<(u64, u64)>(ranges@, order@),
            sorted == Seq::new(order@.len(), |k: int| ranges@[order@[k] as int]),
            k <= order.len(),
            closed.finite(),
            total == closed.len(),
            match open {
                None => closed == Set::<int>::empty() && asked_runs(sorted.take(k as int))
                    == Set::<int>::empty(),
                Some((lo, hi)) => {
                    &&& lo <= hi
                    &&& forall|n: int| closed.contains(n) ==> 0 <= n < lo
                    &&& asked_runs(sorted.take(k as int)) == closed.union(
                        vstd::set_lib::set_int_range(lo as int, hi + 1),
                    )
                    &&& forall|j: int| k <= j < sorted.len() ==> lo <= #[trigger] sorted[j].0
                },
            },
            total <= u64::MAX + 1,
        decreases order.len() - k,
    {
        assert(order@[k as int] < keys.len());
        let range: (u64, u64) = keys[order[k]];
        let ghost before = sorted.take(k as int);
        let ghost after = sorted.take(k + 1);
        proof {
            assert(range == sorted[k as int]);
            assert(after =~= before.push(range));
            assert forall|n: int| #[trigger] asked_runs(after).contains(n) == (asked_runs(
                before,
            ).contains(n) || range.0 <= n <= range.1) by {
                if asks_for(before, n) {
                    let j = choose|j: int|
                        0 <= j < before.len() && #[trigger] before[j].0 <= n <= before[j].1;
                    assert(after[j] == before[j]);
                }
                if range.0 <= n <= range.1 {
                    assert(after[k as int].0 <= n <= after[k as int].1);
                }
                if asks_for(after, n) && !(range.0 <= n <= range.1) {
                    let j = choose|j: int|
                        0 <= j < after.len() && #[trigger] after[j].0 <= n <= after[j].1;
                    assert(before[j] == after[j]);
                }
            }
            assert forall|j: int| k < j < sorted.len() implies range.0 <= #[trigger] sorted[j].0 by {
                assert(comes_before::<(u64, u64)>(
                    ranges@,
                    order@[k as int] as int,
                    order@[j] as int,
                ));
            }
        }
        if range.0 <= range.1 {
            match open {
                Some((lo, hi)) => {
                    if range.0 <= hi {
                        let end: u64 = if hi <= range.1 {
                            range.1
                        } else {
                            hi
                        };
                        open = Some((lo, end));
                        assert(asked_runs(after) =~= closed.union(
                            vstd::set_lib::set_int_range(lo as int, end + 1),
                        ));
                    } else {
                        proof {
                            stretch_adds_its_length(closed, lo as int, hi as int);
                            let grown = closed.union(
                                vstd::set_lib::set_int_range(lo as int, hi + 1),
                            );
                            let all = vstd::set_lib::set_int_range(0, u64::MAX + 1);
                            vstd::set_lib::lemma_int_range(0, u64::MAX + 1);
                            assert(grown.subset_of(all));
                            vstd::set_lib::lemma_len_subset(grown, all);
                            closed = grown;
                        }
                        total = total + (hi - lo) as u128 + 1;
                        open = Some(range);
                        assert(asked_runs(after) =~= closed.union(
                            vstd::set_lib::set_int_range(range.0 as int, range.1 + 1),
                        ));
                    }
                },
                None => {
                    open = Some(range);
                    assert(asked_runs(after) =~= closed.union(
                        vstd::set_lib::set_int_range(range.0 as int, range.1 + 1),
                    ));
                },
            }
        } else {
            assert(asked_runs(after) =~= asked_runs(before));
        }
        k = k + 1;
    }
    proof {
        assert(sorted.take(k as int) =~= sorted);
        assert(asked_runs(sorted) =~= asked_runs(ranges@)) by {
            assert forall|n: int| asks_for(ranges@, n) implies asks_for(sorted, n) by {
                let a = choose|a: int|
                    0 <= a < ranges@.len() && #[trigger] ranges@[a].0 <= n <= ranges@[a].1;
                stable_order_is_onto::<(u64, u64)>(ranges@, order@, a);
                let j = choose|j: int| 0 <= j < order@.len() && #[trigger] order@[j] == a;
                assert(sorted[j].0 <= n <= sorted[j].1);
            }
            assert forall|n: int| asks_for(sorted, n) implies asks_for(ranges@, n) by {
                let j = choose|j: int|
                    0 <= j < sorted.len() && #[trigger] sorted[j].0 <= n <= sorted[j].1;
                let a = order@[j] as int;
                assert(ranges@[a].0 <= n <= ranges@[a].1);
            }
        }
        asked_runs_are_finite(ranges@);
        if let Some((lo, hi)) = open {
            stretch_adds_its_length(closed, lo as int, hi as int);
        }
    }
    match open {
        Some((lo, hi)) => total + (hi - lo) as u128 + 1,
        None => total,
    }
}

/// Number of distinct runs the (possibly overlapping) ranges ask for. Ranges that ask for every
/// run there is are left out: their number has no sixty-four bit form.
pub fn merged_run_count(ranges: &[(u64, u64)]) -> (total: u64)
    requires
        asked_runs(ranges@).len() <= u64::MAX,
    ensures
        total == asked_runs(ranges@).len(),
{
    asked_run_count(ranges) as u64
}

/// Whether the ranges ask for every run there is.
pub fn asks_for_every_run(ranges: &[(u64, u64)]) -> (r: bool)
    ensures
        r == (asked_runs(ranges@).len() > u64::MAX),
{
    asked_run_count(ranges) > u64::MAX as u128
}

// ---------------------------------------------------------------------------------------------
// Numbers in names
// ---------------------------------------------------------------------------------------------

/// How many digits a text ends with.
pub open spec fn digit_tail(s: Seq<char>) -> nat
    decreases s.len(),
{
    if s.len() == 0 || !is_digit(s.last()) {
        0
    } else {
        1 + digit_tail(s.drop_last())
    }
}

/// The number a text ends with.
pub open spec fn trailing_number_of(s: Seq<char>) -> Option<u64> {
    number_of(s.skip(s.len() - digit_tail(s)))
}

/// The number a name ends with ("VENUS_26871" gives 26871).
pub fn trailing_number(s: &str) -> (r: Option<u64>)
    ensures
        r == trailing_number_of(s@),
{
    let v = chars_of(s);
    let mut i: usize = v.len();
    assert(v@.take(i as int) =~= v@);
    while i > 0 && '0' <= v[i - 1] && v[i - 1] <= '9'
        invariant
            v@ == s@,
            i <= v.len(),
            digit_tail(s@) == v.len() - i + digit_tail(v@.take(i as int)),
        decreases i,
    {
        assert(v@.take(i as int).drop_last() =~= v@.take(i - 1));
        i = i - 1;
    }
    assert(v@.subrange(i as int, v.len() as int) =~= s@.skip(s@.len() - digit_tail(s@)));
    parse_number(&v, i, v.len())
}

proof fn digit_tail_of_digits(prefix: Seq<char>, d: Seq<char>)
    requires
        all_digits(d),
        prefix.len() == 0 || !is_digit(prefix.last()),
    ensures
        digit_tail(prefix + d) == d.len(),
    decreases d.len(),
{
    if d.len() > 0 {
        assert((prefix + d).drop_last() =~= prefix + d.drop_last());
        assert((prefix + d).last() == d.last());
        digit_tail_of_digits(prefix, d.drop_last());
    } else {
        assert(prefix + d =~= prefix);
    }
}

/// A number written after something that is no digit is the number that the text ends with.
pub proof fn trailing_number_reads_back(prefix: Seq<char>, n: u64)
    requires
        prefix.len() == 0 || !is_digit(prefix.last()),
    ensures
        trailing_number_of(prefix + decimal(n as nat)) == Some(n),
{
    let d = decimal(n as nat);
    decimal_reads_back(n as nat);
    digit_tail_of_digits(prefix, d);
    assert((prefix + d).skip(prefix.len() as int) =~= d);
    assert(is_digit(d[0]));
}

// ---------------------------------------------------------------------------------------------
// Laws
// ---------------------------------------------------------------------------------------------

/// Commas and white space separate entries; nothing that a number or a range is written with does.
pub proof fn entries_are_separated(c: char)
    ensures
        c == ',' || c == ' ' || c == '\t' || c == '\n' ==> is_break(c),
        '0' <= c <= '9' || c == '-' || c == '+' ==> !is_break(c),
        '!' <= c <= '~' && c != ',' ==> !is_break(c),
{
    spaces_are_invisible(c);
}

/// Whether a text holds no separator.
pub open spec fn is_whole(s: Seq<char>) -> bool {
    forall|i: int| 0 <= i < s.len() ==> !is_break(#[trigger] s[i])
}

proof fn whole_word_len(w: Seq<char>, rest: Seq<char>)
    requires
        is_whole(w),
        rest.len() == 0 || is_break(rest[0]),
    ensures
        word_len(w + rest) == w.len(),
    decreases w.len(),
{
    if w.len() > 0 {
        assert(!is_break(w[0]));
        assert((w + rest)[0] == w[0]);
        assert((w + rest).skip(1) =~= w.skip(1) + rest);
        assert(is_whole(w.skip(1))) by {
            assert forall|i: int| 0 <= i < w.skip(1).len() implies !is_break(
                #[trigger] w.skip(1)[i],
            ) by {
                assert(!is_break(w[i + 1]));
            }
        }
        whole_word_len(w.skip(1), rest);
    } else {
        assert(w + rest =~= rest);
    }
}

/// A text without separators is one entry, an empty one none, and the entries of two texts with a
/// separator between them are those of the first and then those of the second.
pub proof fn lists_are_read_entry_by_entry(a: Seq<char>, c: char, b: Seq<char>)
    requires
        is_break(c),
    ensures
        words(Seq::<char>::empty()) == Seq::<Seq<char>>::empty(),
        is_whole(a) && a.len() > 0 ==> words(a) == seq![a],
        words(a + seq![c] + b) == words(a) + words(b),
    decreases a.len(),
{
    let s = a + seq![c] + b;
    if a.len() == 0 {
        assert(s[0] == c);
        assert(s.skip(1) =~= b);
        assert(words(a) + words(b) =~= words(b));
    } else if is_break(a[0]) {
        assert(s[0] == a[0]);
        assert(s.skip(1) =~= a.skip(1) + seq![c] + b);
        lists_are_read_entry_by_entry(a.skip(1), c, b);
    } else {
        assert(s[0] == a[0]);
        word_len_is_bounded(a);
        let n = word_len(a) as int;
        let w = a.take(n);
        word_is_whole(a);
        let rest = a.skip(n);
        whole_word_len(w, rest + seq![c] + b);
        assert(w + (rest + seq![c] + b) =~= s);
        assert((rest + seq![c] + b)[0] == if rest.len() > 0 {
            rest[0]
        } else {
            c
        });
        assert(word_len(s) == n);
        assert(s.take(n) =~= w);
        assert(s.skip(n) =~= rest + seq![c] + b);
        lists_are_read_entry_by_entry(rest, c, b);
        assert(words(s) =~= seq![w] + (words(rest) + words(b)));
        assert(words(s) =~= words(a) + words(b));
        if is_whole(a) {
            whole_word_len(a, Seq::empty());
            assert(a + Seq::<char>::empty() =~= a);
            assert(w =~= a);
            assert(rest =~= Seq::empty());
            assert(words(a) =~= seq![a]);
        }
    }
}

/// The first entry holds no separator, and one follows it.
proof fn word_is_whole(s: Seq<char>)
    ensures
        word_len(s) <= s.len(),
        is_whole(s.take(word_len(s) as int)),
        word_len(s) < s.len() ==> is_break(s[word_len(s) as int]),
    decreases s.len(),
{
    word_len_is_bounded(s);
    if s.len() > 0 && !is_break(s[0]) {
        let t = s.skip(1);
        word_is_whole(t);
        let n = word_len(s) as int;
        assert forall|i: int| 0 <= i < n implies !is_break(#[trigger] s.take(n)[i]) by {
            if i > 0 {
                assert(t.take(n - 1)[i - 1] == s[i]);
            }
        }
    }
}

/// An entry with a hyphen asks for the runs between the number before its first hyphen and the one
/// after it, whichever is lower; one without asks for its number. Where there is no number there
/// is no range.
pub proof fn entries_are_numbers_or_ranges(a: Seq<char>, b: Seq<char>)
    requires
        forall|i: int| 0 <= i < a.len() ==> #[trigger] a[i] != '-',
    ensures
        range_of(a) == match number_of(a) {
            Some(n) => Some((n, n)),
            None => None,
        },
        match (number_of(a), number_of(b)) {
            (Some(m), Some(n)) => {
                &&& range_of(a + seq!['-'] + b) is Some
                &&& m <= n ==> range_of(a + seq!['-'] + b) == Some((m, n))
                &&& n <= m ==> range_of(a + seq!['-'] + b) == Some((n, m))
            },
            _ => range_of(a + seq!['-'] + b) is None,
        },
{
    hyphen_comes_after(a, Seq::empty());
    assert(a + Seq::<char>::empty() =~= a);
    assert(hyphen_at(Seq::<char>::empty()) == 0);
    let word = a + seq!['-'] + b;
    let tail = seq!['-'] + b;
    hyphen_comes_after(a, tail);
    assert(a + tail =~= word);
    assert(tail[0] == '-');
    assert(word.take(a.len() as int) =~= a);
    assert(word.skip(a.len() as int + 1) =~= b);
}

proof fn hyphen_comes_after(a: Seq<char>, rest: Seq<char>)
    requires
        forall|i: int| 0 <= i < a.len() ==> #[trigger] a[i] != '-',
    ensures
        hyphen_at(a + rest) == a.len() + hyphen_at(rest),
    decreases a.len(),
{
    if a.len() > 0 {
        assert((a + rest)[0] == a[0]);
        assert((a + rest).skip(1) =~= a.skip(1) + rest);
        assert forall|i: int| 0 <= i < a.skip(1).len() implies #[trigger] a.skip(1)[i] != '-' by {
            assert(a[i + 1] != '-');
        }
        hyphen_comes_after(a.skip(1), rest);
    } else {
        assert(a + rest =~= rest);
    }
}

/// A single entry is read by itself; two lists with a separator between them give the ranges of the
/// first and then those of the second; a list with an entry that is no number or range is no list,
/// and neither is one without entries.
pub proof fn run_lists_are_read_in_order(a: Seq<char>, c: char, b: Seq<char>)
    requires
        is_break(c),
    ensures
        ranges_of(Seq::<char>::empty()) is None,
        is_whole(a) && a.len() > 0 ==> ranges_of(a) == match range_of(a) {
            Some(r) => Some(seq![r]),
            None => None,
        },
        ranges_of(a) is Some && ranges_of(b) is Some ==> ranges_of(a + seq![c] + b) == Some(
            ranges_of(a)->0 + ranges_of(b)->0,
        ),
        words(b).len() == 0 ==> ranges_of(a + seq![c] + b) == ranges_of(a),
        words(a).len() == 0 ==> ranges_of(a + seq![c] + b) == ranges_of(b),
        words(a).len() > 0 && ranges_of(a) is None ==> ranges_of(a + seq![c] + b) is None,
        words(b).len() > 0 && ranges_of(b) is None ==> ranges_of(a + seq![c] + b) is None,
{
    lists_are_read_entry_by_entry(a, c, b);
    let s = a + seq![c] + b;
    let (v, w, all) = (words(a), words(b), words(s));
    if is_whole(a) && a.len() > 0 {
        assert(v[0] == a);
        if range_of(a) is Some {
            assert(ranges_of(a)->0 =~= seq![range_of(a)->0]);
        }
    }
    assert(all =~= v + w);
    assert forall|i: int| 0 <= i < v.len() implies #[trigger] all[i] == v[i] by {}
    assert forall|i: int| 0 <= i < w.len() implies #[trigger] w[i] == all[v.len() + i] by {}
    if ranges_of(a) is Some && ranges_of(b) is Some {
        assert forall|i: int| 0 <= i < all.len() implies range_of(#[trigger] all[i]) is Some by {
            if i < v.len() {
                assert(range_of(v[i]) is Some);
            } else {
                assert(range_of(w[i - v.len()]) is Some);
            }
        }
        assert(ranges_of(s)->0 =~= ranges_of(a)->0 + ranges_of(b)->0);
    }
    if w.len() == 0 {
        assert(all =~= v);
    }
    if v.len() == 0 {
        assert(all =~= w);
    }
    if v.len() > 0 && ranges_of(a) is None {
        let i = choose|i: int| 0 <= i < v.len() && !(range_of(#[trigger] v[i]) is Some);
        assert(range_of(all[i]) is None);
    }
    if w.len() > 0 && ranges_of(b) is None {
        let i = choose|i: int| 0 <= i < w.len() && !(range_of(#[trigger] w[i]) is Some);
        assert(range_of(all[v.len() + i]) is None);
    }
}

/// A list of two entries that write runs asks for both.
pub proof fn written_lists_read_back(a: u64, b: u64, n: u64, c: char)
    requires
        is_break(c),
        a <= b,
    ensures
        ranges_of(
            decimal(a as nat) + seq!['-'] + decimal(b as nat) + seq![c] + decimal(n as nat),
        ) == Some(seq![(a, b), (n, n)]),
{
    let (x, y, z) = (decimal(a as nat), decimal(b as nat), decimal(n as nat));
    let w = x + seq!['-'] + y;
    written_runs_read_back(a, b);
    written_runs_read_back(n, n);
    decimal_has_no_leading_zero(a as nat);
    decimal_has_no_leading_zero(b as nat);
    decimal_has_no_leading_zero(n as nat);
    assert(is_whole(w)) by {
        assert forall|i: int| 0 <= i < w.len() implies !is_break(#[trigger] w[i]) by {
            entries_are_separated(w[i]);
            if i < x.len() {
                assert('0' <= x[i] <= '9');
            } else if i > x.len() {
                assert('0' <= y[i - x.len() - 1] <= '9');
            }
        }
    }
    assert(is_whole(z)) by {
        assert forall|i: int| 0 <= i < z.len() implies !is_break(#[trigger] z[i]) by {
            entries_are_separated(z[i]);
            assert('0' <= z[i] <= '9');
        }
    }
    run_lists_are_read_in_order(w, c, z);
    run_lists_are_read_in_order(z, c, w);
    assert(seq![(a, b)] + seq![(n, n)] =~= seq![(a, b), (n, n)]);
}

/// A run is asked for exactly where it lies in one of the ranges, both ends included.
pub proof fn ranges_include_their_ends(ranges: Seq<(u64, u64)>, lo: u64, hi: u64, n: int)
    ensures
        !asks_for(Seq::<(u64, u64)>::empty(), n),
        asks_for(ranges.push((lo, hi)), n) <==> asks_for(ranges, n) || lo <= n <= hi,
        asked_runs(ranges).contains(n) <==> asks_for(ranges, n),
        lo <= hi ==> asks_for(seq![(lo, hi)], lo as int) && asks_for(seq![(lo, hi)], hi as int),
{
    let more = ranges.push((lo, hi));
    if asks_for(ranges, n) {
        let i = choose|i: int| 0 <= i < ranges.len() && #[trigger] ranges[i].0 <= n <= ranges[i].1;
        assert(more[i].0 <= n <= more[i].1);
    }
    if lo <= n <= hi {
        assert(more[ranges.len() as int].0 <= n <= more[ranges.len() as int].1);
    }
    if asks_for(more, n) {
        let i = choose|i: int| 0 <= i < more.len() && #[trigger] more[i].0 <= n <= more[i].1;
        if i < ranges.len() {
            assert(ranges[i].0 <= n <= ranges[i].1);
        }
    }
    if lo <= hi {
        assert(seq![(lo, hi)][0].0 <= lo as int <= seq![(lo, hi)][0].1);
        assert(seq![(lo, hi)][0].0 <= hi as int <= seq![(lo, hi)][0].1);
    }
}

/// One range asks for as many runs as lie between its ends, both included, and a range asked for
/// twice counts once.
pub proof fn runs_are_counted_once(ranges: Seq<(u64, u64)>, lo: u64, hi: u64)
    requires
        lo <= hi,
    ensures
        asked_runs(seq![(lo, hi)]).len() == hi - lo + 1,
        asked_runs(ranges.push((lo, hi)).push((lo, hi))) == asked_runs(ranges.push((lo, hi))),
        asked_runs(Seq::<(u64, u64)>::empty()).len() == 0,
{
    let one = seq![(lo, hi)];
    let none = Seq::<(u64, u64)>::empty();
    assert(none.push((lo, hi)) =~= one);
    vstd::set_lib::lemma_int_range(lo as int, hi + 1);
    assert(asked_runs(one) =~= vstd::set_lib::set_int_range(lo as int, hi + 1)) by {
        assert forall|n: int| asked_runs(one).contains(n) <==> vstd::set_lib::set_int_range(
            lo as int,
            hi + 1,
        ).contains(n) by {
            ranges_include_their_ends(none, lo, hi, n);
            ranges_include_their_ends(one, lo, hi, n);
        }
    }
    let more = ranges.push((lo, hi));
    assert(asked_runs(more.push((lo, hi))) =~= asked_runs(more)) by {
        assert forall|n: int| asked_runs(more.push((lo, hi))).contains(n) <==> asked_runs(
            more,
        ).contains(n) by {
            ranges_include_their_ends(ranges, lo, hi, n);
            ranges_include_their_ends(more, lo, hi, n);
            ranges_include_their_ends(more.push((lo, hi)), lo, hi, n);
        }
    }
    assert(asked_runs(none) =~= Set::empty());
}

/// The number that a text ends with is that of all the digits at its end; a text that does not end
/// with a digit ends with no number.
pub proof fn names_end_with_their_digits(prefix: Seq<char>, d: Seq<char>)
    requires
        prefix.len() == 0 || !('0' <= prefix.last() <= '9'),
        forall|i: int| 0 <= i < d.len() ==> '0' <= #[trigger] d[i] <= '9',
    ensures
        d.len() > 0 && digits_value(d) <= u64::MAX ==> trailing_number_of(prefix + d) == Some(
            digits_value(d) as u64,
        ),
        d.len() == 0 || digits_value(d) > u64::MAX ==> trailing_number_of(prefix + d) is None,
{
    assert forall|i: int| 0 <= i < d.len() implies is_digit(#[trigger] d[i]) by {}
    digit_tail_of_digits(prefix, d);
    assert((prefix + d).skip(prefix.len() as int) =~= d);
    numbers_are_digits(d);
}

} // verus!
