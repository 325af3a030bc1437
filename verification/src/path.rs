//! File paths as they are spelled: two spellings are the same path when their parts are.

use crate::order::{views, Ranked};
use crate::text::{
    begins_with, chars_of, cut, prefix_is_in_front, same_text, starts_with, text_at_most,
    text_order_is_strict,
};
use vstd::prelude::*;
use vstd::string::*;

verus! {

/// One part of a path.
#[derive(Debug)]
pub enum Part {
    /// The leading `/`.
    Root,
    /// A leading `.`.
    Here,
    /// `..`
    Up,
    /// Any other name.
    Name(String),
}

/// What a part is, in terms of characters.
pub enum PartView {
    Root,
    Here,
    Up,
    Name(Seq<char>),
}

impl View for Part {
    type V = PartView;

    open spec fn view(&self) -> PartView {
        match self {
            Part::Root => PartView::Root,
            Part::Here => PartView::Here,
            Part::Up => PartView::Up,
            Part::Name(s) => PartView::Name(s@),
        }
    }
}

/// A path to a file or a directory, as it is spelled.
#[derive(Debug)]
pub struct FilePath {
    pub text: String,
}

impl View for FilePath {
    type V = Seq<char>;

    open spec fn view(&self) -> Seq<char> {
        self.text@
    }
}

impl Clone for FilePath {
    fn clone(&self) -> (r: FilePath)
        ensures
            r@ == self@,
    {
        FilePath { text: self.text.clone() }
    }
}

// ---------------------------------------------------------------------------------------------
// Spelling
// ---------------------------------------------------------------------------------------------

/// How many characters stand before the first `/`.
pub open spec fn segment_len(s: Seq<char>) -> nat
    decreases s.len(),
{
    if s.len() == 0 || s[0] == '/' {
        0
    } else {
        1 + segment_len(s.skip(1))
    }
}

/// A segment ends within the text.
pub proof fn segment_len_is_bounded(s: Seq<char>)
    ensures
        segment_len(s) <= s.len(),
        segment_len(s) < s.len() ==> s[segment_len(s) as int] == '/',
        forall|i: int| 0 <= i < segment_len(s) ==> #[trigger] s[i] != '/',
    decreases s.len(),
{
    if s.len() > 0 && s[0] != '/' {
        let t = s.skip(1);
        segment_len_is_bounded(t);
        assert forall|i: int| 0 <= i < segment_len(s) implies #[trigger] s[i] != '/' by {
            if i > 0 {
                assert(t[i - 1] == s[i]);
            }
        }
    }
}

/// What stands after the first `/`.
pub open spec fn after_segment(s: Seq<char>) -> Seq<char> {
    let n = segment_len(s);
    if n < s.len() {
        s.skip(n as int + 1)
    } else {
        Seq::empty()
    }
}

/// The part that a segment stands for: an empty one stands for none, and so does `.` unless
/// the path begins with it.
pub open spec fn segment_part(segment: Seq<char>, first: bool) -> Seq<PartView> {
    if segment.len() == 0 {
        Seq::empty()
    } else if segment == seq!['.'] {
        if first {
            seq![PartView::Here]
        } else {
            Seq::empty()
        }
    } else if segment == seq!['.', '.'] {
        seq![PartView::Up]
    } else {
        seq![PartView::Name(segment)]
    }
}

/// The parts of a path without a leading `/`; `first` where the text begins the path.
pub open spec fn relative_parts(s: Seq<char>, first: bool) -> Seq<PartView>
    decreases s.len(),
{
    if s.len() == 0 {
        Seq::empty()
    } else {
        proof {
            segment_len_is_bounded(s);
        }
        segment_part(s.take(segment_len(s) as int), first) + relative_parts(
            after_segment(s),
            false,
        )
    }
}

/// The parts of a path.
pub open spec fn path_parts(s: Seq<char>) -> Seq<PartView> {
    if s.len() > 0 && s[0] == '/' {
        seq![PartView::Root] + relative_parts(s.skip(1), false)
    } else {
        relative_parts(s, true)
    }
}

/// Whether two spellings are of the same path.
pub open spec fn same_path(a: Seq<char>, b: Seq<char>) -> bool {
    path_parts(a) == path_parts(b)
}

/// Whether a segment can be a name: it is not empty, `.` or `..`, and holds no `/`.
pub open spec fn is_name(s: Seq<char>) -> bool {
    &&& s.len() > 0
    &&& s != seq!['.']
    &&& s != seq!['.', '.']
    &&& forall|i: int| 0 <= i < s.len() ==> #[trigger] s[i] != '/'
}

/// Whether part `i` of a path may be `p`.
pub open spec fn part_fits(p: PartView, i: int) -> bool {
    match p {
        PartView::Root => i == 0,
        PartView::Here => i == 0,
        PartView::Up => true,
        PartView::Name(s) => is_name(s),
    }
}

/// The lists of parts that are paths.
pub open spec fn is_path(p: Seq<PartView>) -> bool {
    forall|i: int| 0 <= i < p.len() ==> part_fits(#[trigger] p[i], i)
}

proof fn relative_parts_fit(s: Seq<char>, first: bool)
    ensures
        forall|i: int|
            0 <= i < relative_parts(s, first).len() ==> part_fits(
                #[trigger] relative_parts(s, first)[i],
                if first {
                    i
                } else {
                    i + 1
                },
            ) && relative_parts(s, first)[i] != PartView::Root,
    decreases s.len(),
{
    if s.len() > 0 {
        segment_len_is_bounded(s);
        relative_parts_fit(after_segment(s), false);
        let head = s.take(segment_len(s) as int);
        let p = segment_part(head, first);
        let rest = relative_parts(after_segment(s), false);
        assert forall|i: int| 0 <= i < relative_parts(s, first).len() implies part_fits(
            #[trigger] relative_parts(s, first)[i],
            if first {
                i
            } else {
                i + 1
            },
        ) && relative_parts(s, first)[i] != PartView::Root by {
            if i >= p.len() {
                assert(relative_parts(s, first)[i] == rest[i - p.len()]);
            } else {
                assert forall|k: int| 0 <= k < head.len() implies #[trigger] head[k] != '/' by {
                    assert(s[k] != '/');
                }
            }
        }
    }
}

/// Every spelling gives a path.
pub proof fn path_parts_are_a_path(s: Seq<char>)
    ensures
        is_path(path_parts(s)),
{
    if s.len() > 0 && s[0] == '/' {
        relative_parts_fit(s.skip(1), false);
        let rest = relative_parts(s.skip(1), false);
        assert forall|i: int| 0 <= i < path_parts(s).len() implies part_fits(
            #[trigger] path_parts(s)[i],
            i,
        ) by {
            if i > 0 {
                assert(path_parts(s)[i] == rest[i - 1]);
            }
        }
    } else {
        relative_parts_fit(s, true);
    }
}

/// A segment put after a slash adds its part.
proof fn segment_adds_its_part(a: Seq<char>, segment: Seq<char>, first: bool)
    requires
        forall|i: int| 0 <= i < segment.len() ==> #[trigger] segment[i] != '/',
    ensures
        relative_parts(a + seq!['/'] + segment, first) == relative_parts(a, first) + segment_part(
            segment,
            false,
        ),
    decreases a.len(),
{
    let s = a + seq!['/'] + segment;
    let n = segment_len(a) as int;
    segment_len_is_bounded(a);
    segment_len_is_bounded(s);
    assert(s[n] == if n < a.len() {
        a[n]
    } else {
        '/'
    });
    if segment_len(s) < n {
        assert(s[segment_len(s) as int] == a[segment_len(s) as int]);
    }
    assert(segment_len(s) == n);
    assert(s.take(n) =~= a.take(n));
    if n < a.len() {
        let rest = a.skip(n + 1);
        assert(after_segment(s) =~= rest + seq!['/'] + segment);
        segment_adds_its_part(rest, segment, false);
        assert(relative_parts(s, first) =~= relative_parts(a, first) + segment_part(
            segment,
            false,
        ));
    } else {
        assert(a.take(n) =~= a);
        assert(after_segment(s) =~= segment);
        single_segment(segment, false);
        single_segment(a, first);
    }
}

/// A text without slashes is one segment.
proof fn single_segment(s: Seq<char>, first: bool)
    requires
        forall|i: int| 0 <= i < s.len() ==> #[trigger] s[i] != '/',
    ensures
        relative_parts(s, first) == segment_part(s, first),
{
    segment_len_is_bounded(s);
    if s.len() > 0 {
        if segment_len(s) < s.len() {
            assert(s[segment_len(s) as int] == '/');
        }
        assert(s.take(segment_len(s) as int) =~= s);
        assert(relative_parts(Seq::<char>::empty(), false) =~= Seq::empty());
    }
    assert(relative_parts(s, first) =~= segment_part(s, first));
}

// ---------------------------------------------------------------------------------------------
// Directories and names
// ---------------------------------------------------------------------------------------------

/// How many characters stand before the names of a path: the leading `/`, or a leading `.` that
/// is a part of its own.
pub open spec fn lead_len(s: Seq<char>) -> nat {
    if s.len() > 0 && (s[0] == '/' || (s[0] == '.' && (s.len() == 1 || s[1] == '/'))) {
        1
    } else {
        0
    }
}

/// The position of the last `/` from `lead` on; `-1` where there is none.
pub open spec fn last_slash(s: Seq<char>, lead: nat) -> int
    decreases s.len(),
{
    if s.len() <= lead {
        -1
    } else if s.last() == '/' {
        s.len() - 1
    } else {
        last_slash(s.drop_last(), lead)
    }
}

/// The last `/` lies within the text, and no other follows it.
pub proof fn last_slash_is_within(s: Seq<char>, lead: nat)
    ensures
        last_slash(s, lead) == -1 || lead <= last_slash(s, lead) < s.len(),
        last_slash(s, lead) >= 0 ==> s[last_slash(s, lead)] == '/',
        forall|i: int| lead <= i < s.len() && last_slash(s, lead) < i ==> #[trigger] s[i] != '/',
    decreases s.len(),
{
    if s.len() > lead && s.last() != '/' {
        let t = s.drop_last();
        last_slash_is_within(t, lead);
        assert forall|i: int| lead <= i < s.len() && last_slash(s, lead) < i implies #[trigger] s[i]
            != '/' by {
            if i < t.len() {
                assert(t[i] == s[i]);
            }
        }
    }
}

/// The last segment of a path that has one.
pub open spec fn last_segment(s: Seq<char>, lead: nat) -> Seq<char> {
    let k = last_slash(s, lead);
    s.skip(if k < 0 {
        lead as int
    } else {
        k + 1
    })
}

/// What stands before the last segment and the slash before it.
pub open spec fn before_segment(s: Seq<char>, lead: nat) -> Seq<char> {
    let k = last_slash(s, lead);
    s.take(if k < 0 {
        lead as int
    } else {
        k
    })
}

/// Whether a segment stands for no part.
pub open spec fn is_idle(segment: Seq<char>) -> bool {
    segment.len() == 0 || segment == seq!['.']
}

/// The path without the segments at its end that stand for no part.
pub open spec fn settled(s: Seq<char>, lead: nat) -> Seq<char>
    decreases s.len(),
{
    if s.len() <= lead {
        s
    } else {
        proof {
            last_slash_is_within(s, lead);
        }
        if is_idle(last_segment(s, lead)) {
            settled(before_segment(s, lead), lead)
        } else {
            s
        }
    }
}

/// The path without its last part; a root and an empty path have none.
pub open spec fn parent_of(s: Seq<char>) -> Option<Seq<char>> {
    let lead = lead_len(s);
    let t = settled(s, lead);
    if t.len() > lead {
        Some(settled(before_segment(t, lead), lead))
    } else if lead == 1 && s[0] == '.' {
        Some(Seq::empty())
    } else {
        None
    }
}

/// The path of an entry of a directory: what is written after a slash, unless the directory ends
/// in one already or is empty. A name that begins with a slash is a path of its own.
pub open spec fn entry_of(dir: Seq<char>, name: Seq<char>) -> Seq<char> {
    if name.len() > 0 && name[0] == '/' {
        name
    } else if dir.len() == 0 || dir.last() == '/' {
        dir + name
    } else {
        dir + seq!['/'] + name
    }
}

/// The name that a path ends with.
pub open spec fn name_of(s: Seq<char>) -> Option<Seq<char>> {
    let p = path_parts(s);
    if p.len() == 0 {
        None
    } else {
        match p.last() {
            PartView::Name(s) => Some(s),
            _ => None,
        }
    }
}

/// What begins a path stays when its last segment goes.
proof fn lead_stays(s: Seq<char>, lead: nat)
    requires
        lead == lead_len(s),
        s.len() > lead,
    ensures
        lead <= before_segment(s, lead).len() < s.len(),
        lead_len(before_segment(s, lead)) == lead,
        lead == 1 && s[0] == '.' ==> last_slash(s, lead) >= 1,
{
    last_slash_is_within(s, lead);
    let b = before_segment(s, lead);
    if lead == 1 && s[0] == '.' {
        assert(s[1] == '/');
    }
    if b.len() > 0 {
        assert(b[0] == s[0]);
        if b.len() > 1 {
            assert(b[1] == s[1]);
        } else {
            // The first segment ends where the text is cut.
            assert(lead == 1 || s[1] == '/');
        }
    }
}

/// The parts of a path are those of what stands before its last segment, and its own.
proof fn last_segment_is_last_part(s: Seq<char>, lead: nat)
    requires
        lead == lead_len(s),
        s.len() > lead,
    ensures
        path_parts(s) == path_parts(before_segment(s, lead)) + segment_part(
            last_segment(s, lead),
            false,
        ),
{
    last_slash_is_within(s, lead);
    lead_stays(s, lead);
    let k = last_slash(s, lead);
    let b = before_segment(s, lead);
    let g = last_segment(s, lead);
    assert forall|i: int| 0 <= i < g.len() implies #[trigger] g[i] != '/' by {
        assert(g[i] == s[s.len() - g.len() + i]);
    }
    if s[0] == '/' {
        let body = s.skip(1);
        let front = b.skip(1);
        if k < 0 {
            assert(g =~= body);
            single_segment(body, false);
            assert(front =~= Seq::empty());
            assert(relative_parts(front, false) =~= Seq::empty());
        } else {
            assert(body =~= front + seq!['/'] + g);
            segment_adds_its_part(front, g, false);
        }
        assert(path_parts(s) =~= path_parts(b) + segment_part(g, false));
    } else if k < 0 {
        assert(lead == 0);
        assert(g =~= s);
        single_segment(s, true);
        assert(b =~= Seq::empty());
        if s =~= seq!['.'] {
            assert(s[0] == '.');
        }
        assert(path_parts(s) =~= path_parts(b) + segment_part(g, false));
    } else {
        assert(s =~= b + seq!['/'] + g);
        segment_adds_its_part(b, g, true);
        assert(b.len() > 0);
        assert(b[0] == s[0]);
    }
}

/// The parts of a path that has only what begins it.
proof fn lead_alone(s: Seq<char>)
    requires
        s.len() <= lead_len(s),
    ensures
        path_parts(s) == if s.len() == 0 {
            Seq::<PartView>::empty()
        } else if s[0] == '/' {
            seq![PartView::Root]
        } else {
            seq![PartView::Here]
        },
{
    if s.len() > 0 {
        if s[0] == '/' {
            assert(s.skip(1) =~= Seq::empty());
            assert(relative_parts(s.skip(1), false) =~= Seq::empty());
            assert(path_parts(s) =~= seq![PartView::Root]);
        } else {
            assert(s =~= seq!['.']);
            single_segment(s, true);
        }
    }
}

/// Segments that stand for no part can go.
proof fn settled_keeps_parts(s: Seq<char>, lead: nat)
    requires
        lead == lead_len(s),
        lead <= s.len(),
    ensures
        path_parts(settled(s, lead)) == path_parts(s),
        lead_len(settled(s, lead)) == lead,
        lead <= settled(s, lead).len() <= s.len(),
        settled(s, lead).len() > lead ==> !is_idle(last_segment(settled(s, lead), lead)),
        settled(s, lead).len() > 0 ==> settled(s, lead)[0] == s[0],
    decreases s.len(),
{
    if s.len() > lead {
        last_slash_is_within(s, lead);
        if is_idle(last_segment(s, lead)) {
            let b = before_segment(s, lead);
            lead_stays(s, lead);
            last_segment_is_last_part(s, lead);
            assert(path_parts(b) =~= path_parts(s));
            settled_keeps_parts(b, lead);
        }
    }
}

/// The parts of a parent are those of the path without the last; a path without parts, and a
/// root, have no parent.
pub proof fn parent_drops_last_part(s: Seq<char>)
    ensures
        match parent_of(s) {
            Some(d) => {
                &&& path_parts(s).len() > 0
                &&& path_parts(d) == path_parts(s).drop_last()
                &&& d.len() < s.len()
            },
            None => path_parts(s).len() == 0 || path_parts(s) == seq![PartView::Root],
        },
{
    let lead = lead_len(s);
    let t = settled(s, lead);
    settled_keeps_parts(s, lead);
    if t.len() > lead {
        let b = before_segment(t, lead);
        let g = last_segment(t, lead);
        lead_stays(t, lead);
        last_segment_is_last_part(t, lead);
        settled_keeps_parts(b, lead);
        assert(segment_part(g, false).len() == 1);
        assert(path_parts(t).drop_last() =~= path_parts(b));
    } else {
        lead_alone(t);
        if lead == 1 && s[0] == '.' {
            assert(path_parts(t).drop_last() =~= path_parts(Seq::<char>::empty()));
        }
    }
}

/// An entry of a directory has the parts of the directory, and its name.
pub proof fn entry_adds_its_name(dir: Seq<char>, name: Seq<char>)
    requires
        is_name(name),
    ensures
        path_parts(entry_of(dir, name)) == path_parts(dir).push(PartView::Name(name)),
{
    let s = entry_of(dir, name);
    let added = segment_part(name, false);
    assert(added =~= seq![PartView::Name(name)]);
    assert(name[0] != '/');
    if dir.len() == 0 {
        assert(s =~= name);
        single_segment(name, true);
        assert(path_parts(dir) =~= Seq::empty());
    } else if dir[0] == '/' {
        let body = dir.skip(1);
        if dir.len() == 1 {
            assert(s.skip(1) =~= name);
            single_segment(name, false);
            assert(relative_parts(body, false) =~= Seq::empty());
        } else if dir.last() == '/' {
            let front = body.drop_last();
            assert(body =~= front + seq!['/'] + Seq::<char>::empty());
            assert(s.skip(1) =~= front + seq!['/'] + name);
            segment_adds_its_part(front, Seq::empty(), false);
            segment_adds_its_part(front, name, false);
        } else {
            assert(s.skip(1) =~= body + seq!['/'] + name);
            segment_adds_its_part(body, name, false);
        }
        assert(s[0] == '/');
    } else if dir.last() == '/' {
        let front = dir.drop_last();
        assert(dir =~= front + seq!['/'] + Seq::<char>::empty());
        assert(s =~= front + seq!['/'] + name);
        segment_adds_its_part(front, Seq::empty(), true);
        segment_adds_its_part(front, name, true);
        assert(s[0] == dir[0]);
    } else {
        segment_adds_its_part(dir, name, true);
        assert(s[0] == dir[0]);
    }
    assert(path_parts(s) =~= path_parts(dir).push(PartView::Name(name)));
}

/// The parent of an entry is its directory.
pub proof fn entry_lies_in_directory(dir: Seq<char>, name: Seq<char>)
    requires
        is_name(name),
    ensures
        name_of(entry_of(dir, name)) == Some(name),
        parent_of(entry_of(dir, name)) matches Some(d) && same_path(d, dir),
{
    entry_adds_its_name(dir, name);
    parent_drops_last_part(entry_of(dir, name));
    let p = path_parts(entry_of(dir, name));
    assert(p.drop_last() =~= path_parts(dir));
    assert(p.last() == PartView::Name(name));
    if p == seq![PartView::Root] {
        assert(p[0] == PartView::Root);
    }
}

/// Whether a directory of this name belongs to an experiment.
pub open spec fn is_experiment_name(name: Seq<char>) -> bool {
    starts_with(name, "IPTS-"@)
}

/// Whether a path ends with the name of an experiment.
pub open spec fn is_experiment(s: Seq<char>) -> bool {
    name_of(s) matches Some(name) && is_experiment_name(name)
}

/// The directory above the innermost experiment directory of a path.
pub open spec fn instrument_root_of(s: Seq<char>) -> Option<Seq<char>>
    decreases s.len(),
{
    proof {
        parent_drops_last_part(s);
    }
    if is_experiment(s) {
        parent_of(s)
    } else {
        match parent_of(s) {
            Some(d) => instrument_root_of(d),
            None => None,
        }
    }
}

/// Whether a directory of this name belongs to an experiment.
pub fn experiment_name(name: &str) -> (r: bool)
    ensures
        r == is_experiment_name(name@),
{
    begins_with(name, "IPTS-")
}

/// Where the last segment of `v[..n]` begins, and where what stands before it ends.
fn split_segment(v: &Vec<char>, n: usize, lead: usize) -> (r: (usize, usize))
    requires
        lead < n <= v.len(),
    ensures
        r.0 <= n,
        v@.subrange(r.0 as int, n as int) == last_segment(v@.take(n as int), lead as nat),
        lead <= r.1 < n,
        v@.take(r.1 as int) == before_segment(v@.take(n as int), lead as nat),
{
    let ghost s = v@.take(n as int);
    let mut k: usize = n;
    assert(s.take(n as int) =~= s);
    while k > lead && v[k - 1] != '/'
        invariant
            lead <= k <= n <= v.len(),
            s == v@.take(n as int),
            last_slash(s, lead as nat) == last_slash(s.take(k as int), lead as nat),
        decreases k,
    {
        assert(s.take(k as int).last() == v@[k - 1]);
        assert(s.take(k as int).drop_last() =~= s.take(k - 1));
        k = k - 1;
    }
    proof {
        last_slash_is_within(s, lead as nat);
        if k > lead {
            assert(s.take(k as int).last() == v@[k - 1]);
        }
        assert(v@.subrange(k as int, n as int) =~= s.skip(k as int));
    }
    if k > lead {
        assert(v@.take(k - 1) =~= s.take(k - 1));
        (k, k - 1)
    } else {
        assert(v@.take(lead as int) =~= s.take(lead as int));
        (lead, lead)
    }
}

/// How much of `v[..n]` is left without the segments at its end that stand for no part.
fn settle(v: &Vec<char>, n: usize, lead: usize) -> (m: usize)
    requires
        lead <= n <= v.len(),
    ensures
        lead <= m <= n,
        v@.take(m as int) == settled(v@.take(n as int), lead as nat),
{
    let mut m: usize = n;
    while m > lead
        invariant
            lead <= m <= n <= v.len(),
            settled(v@.take(m as int), lead as nat) == settled(v@.take(n as int), lead as nat),
        decreases m,
    {
        let (from, end) = split_segment(v, m, lead);
        let ghost g = v@.subrange(from as int, m as int);
        let idle = from == m || (m - from == 1 && v[from] == '.');
        assert(idle == is_idle(g)) by {
            if m - from == 1 && v@[from as int] == '.' {
                assert(g =~= seq!['.']);
            }
            if g == seq!['.'] {
                assert(g.len() == 1 && g[0] == '.');
            }
        }
        if !idle {
            return m;
        }
        m = end;
    }
    m
}

impl FilePath {
    /// The path that a text spells.
    pub fn from_text(s: &str) -> (p: FilePath)
        ensures
            p@ == s@,
    {
        FilePath { text: s.to_owned() }
    }

    /// How the path is spelled.
    pub fn to_text(&self) -> (s: String)
        ensures
            s@ == self@,
    {
        self.text.clone()
    }

    /// The parts of the path.
    pub fn parts(&self) -> (parts: Vec<Part>)
        ensures
            views(parts@) == path_parts(self@),
    {
        let ghost s = self@;
        let v = chars_of(self.text.as_str());
        let mut parts: Vec<Part> = Vec::new();
        let mut i: usize = 0;
        let mut first = true;
        if v.len() > 0 && v[0] == '/' {
            parts.push(Part::Root);
            i = 1;
            first = false;
        }
        assert(v@.skip(0) =~= v@);
        assert(views(parts@) + relative_parts(v@.skip(i as int), first) =~= path_parts(s));
        while i < v.len()
            invariant
                v@ == s,
                i <= v.len(),
                views(parts@) + relative_parts(v@.skip(i as int), first) == path_parts(s),
            decreases v.len() - i,
        {
            let ghost rest = v@.skip(i as int);
            let mut end: usize = i;
            while end < v.len() && v[end] != '/'
                invariant
                    i <= end <= v.len(),
                    segment_len(v@.skip(i as int)) == end - i + segment_len(v@.skip(end as int)),
                decreases v.len() - end,
            {
                assert(v@.skip(end as int).skip(1) =~= v@.skip(end + 1));
                end = end + 1;
            }
            let ghost before = views(parts@);
            let ghost segment = v@.subrange(i as int, end as int);
            assert(rest.take(segment_len(rest) as int) =~= segment);
            let ghost added = segment_part(segment, first);
            if end == i {
                assert(added =~= Seq::empty());
            } else if end - i == 1 && v[i] == '.' {
                assert(segment =~= seq!['.']);
                if first {
                    parts.push(Part::Here);
                }
            } else if end - i == 2 && v[i] == '.' && v[i + 1] == '.' {
                assert(segment =~= seq!['.', '.']);
                parts.push(Part::Up);
            } else {
                assert(segment != seq!['.']) by {
                    if segment == seq!['.'] {
                        assert(segment.len() == 1 && segment[0] == '.');
                    }
                }
                assert(segment != seq!['.', '.']) by {
                    if segment == seq!['.', '.'] {
                        assert(segment.len() == 2 && segment[0] == '.' && segment[1] == '.');
                    }
                }
                parts.push(Part::Name(cut(&v, i, end)));
            }
            assert(views(parts@) =~= before + added);
            let next: usize = if end < v.len() {
                end + 1
            } else {
                end
            };
            assert(after_segment(rest) =~= v@.skip(next as int));
            assert(before + (added + relative_parts(v@.skip(next as int), false)) =~= (before
                + added) + relative_parts(v@.skip(next as int), false));
            first = false;
            i = next;
        }
        assert(v@.skip(i as int) =~= Seq::empty());
        assert(views(parts@) =~= path_parts(s));
        parts
    }

    /// The path of an entry of this directory.
    pub fn entry(&self, name: &str) -> (r: FilePath)
        ensures
            r@ == entry_of(self@, name@),
    {
        let dir = chars_of(self.text.as_str());
        let added = chars_of(name);
        if added.len() > 0 && added[0] == '/' {
            return FilePath { text: name.to_owned() };
        }
        let mut text = self.text.clone();
        if dir.len() > 0 && dir[dir.len() - 1] != '/' {
            text.push('/');
            assert(text@ =~= self@ + seq!['/']);
        }
        text.append(name);
        FilePath { text }
    }

    /// The path without its last part; a root and an empty path have none.
    pub fn parent(&self) -> (r: Option<FilePath>)
        ensures
            match r {
                Some(p) => parent_of(self@) == Some(p@),
                None => parent_of(self@) is None,
            },
    {
        let v = chars_of(self.text.as_str());
        let n: usize = v.len();
        let dot = n > 0 && v[0] == '.' && (n == 1 || v[1] == '/');
        let lead: usize = if n > 0 && (v[0] == '/' || dot) {
            1
        } else {
            0
        };
        assert(v@.take(n as int) =~= v@);
        let m: usize = settle(&v, n, lead);
        if m > lead {
            let (_, end) = split_segment(&v, m, lead);
            let d: usize = settle(&v, end, lead);
            let text = cut(&v, 0, d);
            assert(text@ =~= v@.take(d as int));
            Some(FilePath { text })
        } else if dot {
            Some(FilePath { text: String::new() })
        } else {
            None
        }
    }

    /// The name that the path ends with.
    pub fn file_name(&self) -> (r: Option<String>)
        ensures
            match r {
                Some(s) => name_of(self@) == Some(s@),
                None => name_of(self@) is None,
            },
    {
        let parts = self.parts();
        let n: usize = parts.len();
        if n == 0 {
            return None;
        }
        assert(views(parts@).last() == parts@[n - 1]@);
        match &parts[n - 1] {
            Part::Name(s) => Some(s.clone()),
            _ => None,
        }
    }

    /// Whether two paths have the same parts.
    pub fn same_as(&self, other: &FilePath) -> (r: bool)
        ensures
            r == same_path(self@, other@),
    {
        let a = self.parts();
        let b = other.parts();
        if a.len() != b.len() {
            assert(views(a@).len() != views(b@).len());
            return false;
        }
        let mut i: usize = 0;
        while i < a.len()
            invariant
                a.len() == b.len(),
                i <= a.len(),
                views(a@) == path_parts(self@),
                views(b@) == path_parts(other@),
                forall|k: int| 0 <= k < i ==> #[trigger] views(a@)[k] == views(b@)[k],
            decreases a.len() - i,
        {
            if !same_part(&a[i], &b[i]) {
                assert(views(a@)[i as int] != views(b@)[i as int]);
                return false;
            }
            assert(views(a@)[i as int] == views(b@)[i as int]);
            i = i + 1;
        }
        assert(views(a@) =~= views(b@));
        true
    }

    /// The directory above the innermost experiment directory (`IPTS-…`) of the path.
    pub fn instrument_root(&self) -> (r: Option<FilePath>)
        ensures
            match r {
                Some(p) => instrument_root_of(self@) == Some(p@),
                None => instrument_root_of(self@) is None,
            },
    {
        let mut at = self.clone();
        loop
            invariant
                instrument_root_of(at@) == instrument_root_of(self@),
            decreases at@.len(),
        {
            let found = match at.file_name() {
                Some(name) => experiment_name(name.as_str()),
                None => false,
            };
            if found {
                return at.parent();
            }
            proof {
                parent_drops_last_part(at@);
            }
            match at.parent() {
                Some(d) => {
                    at = d;
                },
                None => {
                    return None;
                },
            }
        }
    }
}

/// Whether two parts are the same.
pub fn same_part(a: &Part, b: &Part) -> (r: bool)
    ensures
        r == (a@ == b@),
{
    match (a, b) {
        (Part::Root, Part::Root) => true,
        (Part::Here, Part::Here) => true,
        (Part::Up, Part::Up) => true,
        (Part::Name(s), Part::Name(t)) => same_text(s.as_str(), t.as_str()),
        _ => false,
    }
}

// ---------------------------------------------------------------------------------------------
// Order
// ---------------------------------------------------------------------------------------------

/// The root stands before `.`, `.` before `..`, and `..` before any name.
pub open spec fn part_rank(p: PartView) -> nat {
    match p {
        PartView::Root => 0,
        PartView::Here => 1,
        PartView::Up => 2,
        PartView::Name(_) => 3,
    }
}

pub open spec fn part_at_most(a: PartView, b: PartView) -> bool {
    match (a, b) {
        (PartView::Name(s), PartView::Name(t)) => text_at_most(s, t),
        _ => part_rank(a) <= part_rank(b),
    }
}

/// Paths are ordered by their first difference, and a directory stands before what it holds.
pub open spec fn path_at_most(a: Seq<PartView>, b: Seq<PartView>) -> bool
    decreases a.len(),
{
    if a.len() == 0 {
        true
    } else if b.len() == 0 {
        false
    } else if a[0] == b[0] {
        path_at_most(a.skip(1), b.skip(1))
    } else {
        part_at_most(a[0], b[0])
    }
}

proof fn part_order_is_total(a: PartView, b: PartView)
    ensures
        part_at_most(a, b) || part_at_most(b, a),
{
    if let (PartView::Name(s), PartView::Name(t)) = (a, b) {
        String::at_most_is_total(s, t);
    }
}

proof fn part_order_is_transitive(a: PartView, b: PartView, c: PartView)
    requires
        part_at_most(a, b),
        part_at_most(b, c),
    ensures
        part_at_most(a, c),
{
    if let (PartView::Name(s), PartView::Name(t)) = (a, b) {
        if let PartView::Name(u) = c {
            String::at_most_is_transitive(s, t, u);
        }
    }
}

proof fn part_order_is_strict(a: PartView, b: PartView)
    requires
        part_at_most(a, b),
        part_at_most(b, a),
    ensures
        a == b,
{
    if let (PartView::Name(s), PartView::Name(t)) = (a, b) {
        text_order_is_strict(s, t);
    }
}

proof fn path_order_is_total(a: Seq<PartView>, b: Seq<PartView>)
    ensures
        path_at_most(a, b) || path_at_most(b, a),
    decreases a.len(),
{
    if a.len() > 0 && b.len() > 0 {
        if a[0] == b[0] {
            path_order_is_total(a.skip(1), b.skip(1));
        } else {
            part_order_is_total(a[0], b[0]);
        }
    }
}

proof fn path_order_is_transitive(a: Seq<PartView>, b: Seq<PartView>, c: Seq<PartView>)
    requires
        path_at_most(a, b),
        path_at_most(b, c),
    ensures
        path_at_most(a, c),
    decreases a.len(),
{
    if a.len() > 0 {
        if a[0] == b[0] && b[0] == c[0] {
            path_order_is_transitive(a.skip(1), b.skip(1), c.skip(1));
        } else if a[0] != b[0] && b[0] != c[0] {
            part_order_is_transitive(a[0], b[0], c[0]);
            if a[0] == c[0] {
                part_order_is_strict(a[0], b[0]);
            }
        }
    }
}

/// Paths that stand before each other are the same.
pub proof fn path_order_is_strict(a: Seq<PartView>, b: Seq<PartView>)
    requires
        path_at_most(a, b),
        path_at_most(b, a),
    ensures
        a == b,
    decreases a.len(),
{
    if a.len() > 0 && b.len() > 0 {
        if a[0] != b[0] {
            part_order_is_strict(a[0], b[0]);
        }
        path_order_is_strict(a.skip(1), b.skip(1));
        assert(a =~= seq![a[0]] + a.skip(1));
        assert(b =~= seq![b[0]] + b.skip(1));
    } else {
        assert(a =~= b);
    }
}

fn rank(p: &Part) -> (r: u8)
    ensures
        r == part_rank(p@),
{
    match p {
        Part::Root => 0,
        Part::Here => 1,
        Part::Up => 2,
        Part::Name(_) => 3,
    }
}

impl Ranked for FilePath {
    open spec fn at_most(a: Seq<char>, b: Seq<char>) -> bool {
        path_at_most(path_parts(a), path_parts(b))
    }

    proof fn at_most_is_total(a: Seq<char>, b: Seq<char>) {
        path_order_is_total(path_parts(a), path_parts(b));
    }

    proof fn at_most_is_transitive(a: Seq<char>, b: Seq<char>, c: Seq<char>) {
        path_order_is_transitive(path_parts(a), path_parts(b), path_parts(c));
    }

    fn is_at_most(&self, other: &FilePath) -> (r: bool) {
        let x = self.parts();
        let y = other.parts();
        let ghost p = views(x@);
        let ghost q = views(y@);
        let mut i: usize = 0;
        assert(p.skip(0) =~= p);
        assert(q.skip(0) =~= q);
        while i < x.len() && i < y.len()
            invariant
                i <= x.len(),
                i <= y.len(),
                p == views(x@),
                q == views(y@),
                p == path_parts(self@),
                q == path_parts(other@),
                path_at_most(p.skip(i as int), q.skip(i as int)) == path_at_most(p, q),
            decreases x.len() - i,
        {
            let a = &x[i];
            let b = &y[i];
            assert(p.skip(i as int)[0] == a@);
            assert(q.skip(i as int)[0] == b@);
            if !same_part(a, b) {
                return match (a, b) {
                    (Part::Name(s), Part::Name(t)) => s.is_at_most(t),
                    _ => rank(a) <= rank(b),
                };
            }
            assert(p.skip(i as int).skip(1) =~= p.skip(i + 1));
            assert(q.skip(i as int).skip(1) =~= q.skip(i + 1));
            i = i + 1;
        }
        i == x.len()
    }
}

// ---------------------------------------------------------------------------------------------
// Directories that the open and the recent files suggest
// ---------------------------------------------------------------------------------------------

/// The first of the paths that lies in an experiment gives the instrument's directory.
pub open spec fn first_root(paths: Seq<Seq<char>>) -> Option<Seq<char>>
    decreases paths.len(),
{
    if paths.len() == 0 {
        None
    } else {
        match instrument_root_of(paths[0]) {
            Some(r) => Some(r),
            None => first_root(paths.skip(1)),
        }
    }
}

/// The directory whose experiments are searched for runs: the one of the first open file, else
/// the first one that a recent file gives, else the VENUS instrument's.
pub open spec fn search_root(open: Option<Seq<char>>, recent: Seq<Seq<char>>) -> Seq<char> {
    let own = match open {
        Some(p) => instrument_root_of(p),
        None => None,
    };
    match own {
        Some(r) => r,
        None => match first_root(recent) {
            Some(r) => r,
            None => "/SNS/VENUS"@,
        },
    }
}

/// Instrument root (e.g. /SNS/VENUS) whose IPTS-* directories the run search scans: taken from
/// the current or recent file's path, VENUS otherwise.
pub fn instrument_root(open: Option<&FilePath>, recent: &Vec<FilePath>) -> (r: FilePath)
    ensures
        r@ == search_root(
            match open {
                Some(p) => Some(p@),
                None => None,
            },
            views(recent@),
        ),
{
    if let Some(p) = open {
        if let Some(root) = p.instrument_root() {
            return root;
        }
    }
    let ghost all = views(recent@);
    let mut i: usize = 0;
    assert(all.skip(0) =~= all);
    while i < recent.len()
        invariant
            all == views(recent@),
            i <= recent.len(),
            first_root(all) == first_root(all.skip(i as int)),
            match open {
                Some(p) => instrument_root_of(p@) is None,
                None => true,
            },
        decreases recent.len() - i,
    {
        assert(all.skip(i as int)[0] == recent@[i as int]@);
        assert(all.skip(i as int).skip(1) =~= all.skip(i + 1));
        if let Some(root) = recent[i].instrument_root() {
            return root;
        }
        i = i + 1;
    }
    FilePath::from_text("/SNS/VENUS")
}

/// The directory that dialogs start in: the first open file's, else the most recent one's.
pub open spec fn start_dir(open: Option<Seq<char>>, recent: Seq<Seq<char>>) -> Option<Seq<char>> {
    match open {
        Some(p) => parent_of(p),
        None => if recent.len() > 0 {
            parent_of(recent[0])
        } else {
            None
        },
    }
}

/// Directory to pre-fill popups and dialogs with: the first open file's, else the most recent
/// one's.
pub fn default_dir(open: Option<&FilePath>, recent: &Vec<FilePath>) -> (r: Option<FilePath>)
    ensures
        ({
            let d = start_dir(
                match open {
                    Some(p) => Some(p@),
                    None => None,
                },
                views(recent@),
            );
            match r {
                Some(p) => d == Some(p@),
                None => d is None,
            }
        }),
{
    match open {
        Some(p) => p.parent(),
        None => if recent.len() > 0 {
            recent[0].parent()
        } else {
            None
        },
    }
}

// ---------------------------------------------------------------------------------------------
// Laws
// ---------------------------------------------------------------------------------------------

/// A path is made of the segments between its slashes: an empty one and a `.` stand for nothing,
/// `..` goes up, and any other is a name. Only at the beginning of a path does a `.` count, and a
/// slash there is the root.
pub proof fn segments_make_the_parts(a: Seq<char>, segment: Seq<char>)
    requires
        forall|i: int| 0 <= i < segment.len() ==> #[trigger] segment[i] != '/',
    ensures
        ({
            let added = if segment.len() == 0 || segment == seq!['.'] {
                Seq::<PartView>::empty()
            } else if segment == seq!['.', '.'] {
                seq![PartView::Up]
            } else {
                seq![PartView::Name(segment)]
            };
            &&& a.len() > 0 ==> path_parts(a + seq!['/'] + segment) == path_parts(a) + added
            &&& path_parts(seq!['/'] + segment) == seq![PartView::Root] + added
            &&& path_parts(segment) == if segment == seq!['.'] {
                seq![PartView::Here]
            } else {
                added
            }
        }),
{
    let added = segment_part(segment, false);
    single_segment(segment, true);
    single_segment(segment, false);
    assert((seq!['/'] + segment).skip(1) =~= segment);
    if a.len() > 0 {
        let s = a + seq!['/'] + segment;
        assert(s[0] == a[0]);
        if a[0] == '/' {
            let body = a.skip(1);
            assert(s.skip(1) =~= body + seq!['/'] + segment);
            segment_adds_its_part(body, segment, false);
            assert(path_parts(s) =~= path_parts(a) + added);
        } else {
            segment_adds_its_part(a, segment, true);
        }
    }
}

/// An entry is written after its directory with one slash between them; a name that begins with a
/// slash stands for itself.
pub proof fn entries_are_written_after_a_slash(dir: Seq<char>, name: Seq<char>)
    ensures
        name.len() > 0 && name[0] == '/' ==> entry_of(dir, name) == name,
        (name.len() == 0 || name[0] != '/') && dir.len() == 0 ==> entry_of(dir, name) == name,
        (name.len() == 0 || name[0] != '/') && dir.len() > 0 && dir.last() == '/' ==> entry_of(
            dir,
            name,
        ) == dir + name,
        (name.len() == 0 || name[0] != '/') && dir.len() > 0 && dir.last() != '/' ==> entry_of(
            dir,
            name,
        ) == dir + seq!['/'] + name,
{
    if dir.len() == 0 {
        assert(dir + name =~= name);
    }
}

/// The directory of a path is what stands before the slash and the name at its end, as it is
/// spelled.
pub proof fn directories_keep_their_spelling(dir: Seq<char>, name: Seq<char>)
    requires
        is_name(name),
        dir.len() > 0,
        dir.last() != '/',
        dir.last() != '.',
    ensures
        parent_of(dir + seq!['/'] + name) == Some(dir),
        name_of(dir + seq!['/'] + name) == Some(name),
        parent_of(seq!['/'] + name) == Some(seq!['/']),
        parent_of(name) == Some(Seq::<char>::empty()),
{
    let s = dir + seq!['/'] + name;
    assert(entry_of(dir, name) == s) by {
        assert(name[0] != '/');
    }
    entry_lies_in_directory(dir, name);
    let lead = lead_len(s);
    assert(s[0] == dir[0]);
    assert(lead < dir.len() || (dir.len() == 1 && lead == 0)) by {
        if dir.len() == 1 {
            assert(dir[0] == dir.last());
        }
    }
    last_slash_is(s, lead, dir.len() as int);
    assert(last_segment(s, lead) =~= name);
    assert(before_segment(s, lead) =~= dir);
    assert(settled(s, lead) == s);
    assert(settled(dir, lead) == dir) by {
        last_slash_is_within(dir, lead);
        let g = last_segment(dir, lead);
        assert(g.len() > 0) by {
            if last_slash(dir, lead) == dir.len() - 1 {
                assert(dir[dir.len() - 1] == '/');
            }
        }
        assert(g.last() == dir.last());
        if g == seq!['.'] {
            assert(g.last() == '.');
        }
    }
    let t = seq!['/'] + name;
    assert(t[0] == '/');
    no_slash_after(t, 1);
    assert(last_segment(t, 1) =~= name);
    assert(before_segment(t, 1) =~= seq!['/']);
    assert(settled(t, 1) == t);
    assert(settled(seq!['/'], 1) == seq!['/']);
    assert(lead_len(name) == 0) by {
        if name[0] == '.' {
            if name.len() == 1 {
                assert(name =~= seq!['.']);
            } else {
                assert(name[1] != '/');
            }
        }
        assert(name[0] != '/');
    }
    no_slash_after(name, 0);
    assert(last_segment(name, 0) =~= name);
    assert(before_segment(name, 0) =~= Seq::empty());
    assert(settled(name, 0) == name);
}

/// Where the last slash stands.
proof fn last_slash_is(s: Seq<char>, lead: nat, k: int)
    requires
        lead <= k < s.len(),
        s[k] == '/',
        forall|i: int| k < i < s.len() ==> #[trigger] s[i] != '/',
    ensures
        last_slash(s, lead) == k,
{
    last_slash_is_within(s, lead);
    let l = last_slash(s, lead);
    if l < k {
        assert(s[k] != '/');
    } else if k < l {
        assert(s[l] != '/');
    }
}

proof fn no_slash_after(s: Seq<char>, lead: nat)
    requires
        forall|i: int| lead <= i < s.len() ==> #[trigger] s[i] != '/',
    ensures
        last_slash(s, lead) == -1,
{
    last_slash_is_within(s, lead);
}

/// The directory of an experiment is one whose name begins with `IPTS-`.
pub proof fn experiments_are_known_by_name(rest: Seq<char>, name: Seq<char>)
    ensures
        is_experiment_name("IPTS-"@ + rest),
        is_experiment_name(name) ==> exists|rest: Seq<char>| name == #[trigger] ("IPTS-"@ + rest),
{
    prefix_is_in_front("IPTS-"@ + rest, "IPTS-"@);
    prefix_is_in_front(name, "IPTS-"@);
}

/// The instrument's directory of a path is what lies above the last of its parts that names an
/// experiment.
pub proof fn instrument_is_above_the_experiment(s: Seq<char>, i: int)
    requires
        0 <= i < path_parts(s).len(),
        path_parts(s)[i] matches PartView::Name(n) && is_experiment_name(n),
        forall|j: int|
            i < j < path_parts(s).len() ==> !(#[trigger] path_parts(s)[j] matches PartView::Name(n)
                && is_experiment_name(n)),
    ensures
        instrument_root_of(s) matches Some(r) && path_parts(r) == path_parts(s).take(i),
    decreases s.len(),
{
    let p = path_parts(s);
    parent_drops_last_part(s);
    if p == seq![PartView::Root] {
        assert(p[i] == PartView::Root);
    }
    let d = parent_of(s)->0;
    if i == p.len() - 1 {
        assert(p.last() == p[i]);
        assert(p.drop_last() =~= p.take(i));
    } else {
        let l = p.len() - 1;
        assert(!(p[l] matches PartView::Name(n) && is_experiment_name(n)));
        let q = path_parts(d);
        assert forall|j: int| i < j < q.len() implies !(#[trigger] q[j] matches PartView::Name(n)
            && is_experiment_name(n)) by {
            assert(q[j] == p[j]);
        }
        instrument_is_above_the_experiment(d, i);
        assert(q.take(i) =~= p.take(i));
    }
}

/// A path without an experiment has no instrument's directory.
pub proof fn no_experiment_has_no_instrument(s: Seq<char>)
    requires
        forall|j: int|
            0 <= j < path_parts(s).len() ==> !(#[trigger] path_parts(s)[j] matches PartView::Name(n)
                && is_experiment_name(n)),
    ensures
        instrument_root_of(s) is None,
    decreases s.len(),
{
    let p = path_parts(s);
    parent_drops_last_part(s);
    if p.len() > 0 {
        assert(!(p[p.len() - 1] matches PartView::Name(n) && is_experiment_name(n)));
    }
    if let Some(d) = parent_of(s) {
        let q = path_parts(d);
        assert forall|j: int| 0 <= j < q.len() implies !(#[trigger] q[j] matches PartView::Name(n)
            && is_experiment_name(n)) by {
            assert(q[j] == p[j]);
        }
        no_experiment_has_no_instrument(d);
    }
}

/// The runs are searched below the instrument's directory of the open file, else below that of the
/// first recent file that has one, else below the VENUS instrument's.
pub proof fn search_starts_at_the_nearest_instrument(
    open: Option<Seq<char>>,
    recent: Seq<Seq<char>>,
    i: int,
)
    requires
        0 <= i <= recent.len(),
        forall|j: int| 0 <= j < i ==> instrument_root_of(#[trigger] recent[j]) is None,
        i < recent.len() ==> instrument_root_of(recent[i]) is Some,
    ensures
        open matches Some(p) && instrument_root_of(p) is Some ==> Some(search_root(open, recent))
            == instrument_root_of(open->0),
        (open matches Some(p) ==> instrument_root_of(p) is None) && i < recent.len() ==> Some(
            search_root(open, recent),
        ) == instrument_root_of(recent[i]),
        (open matches Some(p) ==> instrument_root_of(p) is None) && i == recent.len() ==> search_root(
            open,
            recent,
        ) == "/SNS/VENUS"@,
{
    first_root_is_found(recent, i);
}

proof fn first_root_is_found(recent: Seq<Seq<char>>, i: int)
    requires
        0 <= i <= recent.len(),
        forall|j: int| 0 <= j < i ==> instrument_root_of(#[trigger] recent[j]) is None,
        i < recent.len() ==> instrument_root_of(recent[i]) is Some,
    ensures
        first_root(recent) == if i < recent.len() {
            instrument_root_of(recent[i])
        } else {
            None
        },
    decreases recent.len(),
{
    if recent.len() > 0 && i > 0 {
        let rest = recent.skip(1);
        assert(instrument_root_of(recent[0]) is None);
        assert forall|j: int| 0 <= j < i - 1 implies instrument_root_of(#[trigger] rest[j]) is None by {
            assert(rest[j] == recent[j + 1]);
        }
        if i < recent.len() {
            assert(rest[i - 1] == recent[i]);
        }
        first_root_is_found(rest, i - 1);
    }
}

/// Dialogs start in the directory of the open file, else in that of the most recent one.
pub proof fn dialogs_start_beside_the_open_file(p: Seq<char>, recent: Seq<Seq<char>>)
    ensures
        start_dir(Some(p), recent) == parent_of(p),
        recent.len() > 0 ==> start_dir(None, recent) == parent_of(recent[0]),
        recent.len() == 0 ==> start_dir(None, recent) is None,
{
}

/// What two paths begin with alike makes no difference to their order; then the first different
/// parts decide, names as texts, and a directory stands before what it holds.
pub proof fn path_order_goes_by_first_difference(
    p: Seq<PartView>,
    a: Seq<PartView>,
    b: Seq<PartView>,
    s: Seq<char>,
    t: Seq<char>,
)
    ensures
        path_at_most(p + a, p + b) == path_at_most(a, b),
        path_at_most(p, p + a),
        a.len() > 0 ==> !path_at_most(p + a, p),
        path_at_most(p + seq![PartView::Name(s)], p + seq![PartView::Name(t)]) == text_at_most(s, t),
        path_at_most(seq![PartView::Root], seq![PartView::Name(s)]),
        !path_at_most(seq![PartView::Name(s)], seq![PartView::Root]),
        !path_at_most(seq![PartView::Here], seq![PartView::Root]),
        !path_at_most(seq![PartView::Up], seq![PartView::Here]),
        !path_at_most(seq![PartView::Name(s)], seq![PartView::Up]),
    decreases p.len(),
{
    let (x, y) = (seq![PartView::Name(s)], seq![PartView::Name(t)]);
    if p.len() > 0 {
        let q = p.skip(1);
        path_order_goes_by_first_difference(q, a, b, s, t);
        assert((p + a).skip(1) =~= q + a);
        assert((p + b).skip(1) =~= q + b);
        assert((p + x).skip(1) =~= q + x);
        assert((p + y).skip(1) =~= q + y);
        assert((p + a)[0] == p[0] && (p + b)[0] == p[0]);
        assert((p + x)[0] == p[0] && (p + y)[0] == p[0]);
    } else {
        assert(p + a =~= a);
        assert(p + b =~= b);
        assert(p + x =~= x);
        assert(p + y =~= y);
        assert(x.skip(1).len() == 0 && y.skip(1).len() == 0);
        if s == t {
            String::at_most_is_total(s, t);
            assert(path_at_most(x.skip(1), y.skip(1)));
        } else {
            assert(x[0] != y[0]);
        }
    }
}

/// The directory of a path is what the path begins with, and has no slash at its end but for the
/// root; the name of a path is its last part, where that is a name.
pub proof fn directories_are_what_paths_begin_with(s: Seq<char>)
    ensures
        parent_of(s) matches Some(d) ==> {
            &&& d.len() < s.len()
            &&& s.take(d.len() as int) == d
            &&& d.len() > 1 ==> d.last() != '/'
        },
        forall|n: Seq<char>| #[trigger]
            is_last_name(s, n) <==> name_of(s) == Some(n),
{
    let lead = lead_len(s);
    let t = settled(s, lead);
    parent_drops_last_part(s);
    settled_keeps_parts(s, lead);
    settled_is_in_front(s, lead);
    if t.len() > lead {
        let b = before_segment(t, lead);
        lead_stays(t, lead);
        last_slash_is_within(t, lead);
        settled_is_in_front(b, lead);
        let d = settled(b, lead);
        assert(s.take(d.len() as int) =~= d) by {
            assert forall|i: int| 0 <= i < d.len() implies s[i] == d[i] by {
                assert(b.take(d.len() as int)[i] == b[i]);
                assert(t[i] == b[i]);
                assert(s.take(t.len() as int)[i] == s[i]);
            }
        }
    } else if parent_of(s) is Some {
        assert(s.take(0) =~= Seq::empty());
    }
}

/// Whether the last part of a path is the name `n`.
pub open spec fn is_last_name(s: Seq<char>, n: Seq<char>) -> bool {
    path_parts(s).len() > 0 && path_parts(s).last() == PartView::Name(n)
}

/// What is left of a path without the segments at its end that stand for nothing is what it begins
/// with.
proof fn settled_is_in_front(s: Seq<char>, lead: nat)
    requires
        lead <= s.len(),
        lead <= 1,
    ensures
        settled(s, lead).len() <= s.len(),
        s.take(settled(s, lead).len() as int) == settled(s, lead),
        settled(s, lead).len() > 1 ==> settled(s, lead).last() != '/',
    decreases s.len(),
{
    if s.len() > lead {
        last_slash_is_within(s, lead);
        let g = last_segment(s, lead);
        if is_idle(g) {
            let b = before_segment(s, lead);
            settled_is_in_front(b, lead);
            let d = settled(b, lead);
            assert(s.take(d.len() as int) =~= b.take(d.len() as int));
        } else {
            assert(s.take(s.len() as int) =~= s);
            assert(g.len() > 0);
            if s.last() == '/' {
                assert(s[s.len() - 1] == '/');
            }
        }
    } else {
        assert(s.take(s.len() as int) =~= s);
    }
}

} // verus!
