//! The content of a NeXus/HDF5 file as a browsable tree.

use crate::datatype::{dtype_name, name_of_type, TypeDesc};
use crate::order::{
    comes_before, is_stable_order, stable_order, stable_order_exists, stable_order_of, views,
};
use crate::path::FilePath;
use crate::text::{lowercase, same_text, text_at_most, to_lower};
use vstd::prelude::*;
use vstd::string::*;

verus! {

/// What an HDF5 group holds under a name.
#[derive(Debug)]
pub enum Member {
    /// A group and its own members.
    Group(String, Vec<Member>),
    /// A dataset: its shape, and its datatype where that can be told.
    Dataset(String, Vec<usize>, Option<TypeDesc>),
    /// Something that opens neither as a group nor as a dataset.
    Other(String),
}

/// A member of a group with its name in lower case, which members are sorted by.
#[derive(Debug)]
pub enum Entry {
    Group { name: String, lower: String, entries: Vec<Entry> },
    /// A dataset: its shape, and the text shown for its datatype.
    Dataset { name: String, lower: String, shape: Vec<usize>, dtype: String },
    /// Something that is no node.
    Other { name: String, lower: String },
}

/// A member with its name in lower case, in terms of sequences.
pub enum EntryView {
    Group { name: Seq<char>, lower: Seq<char>, entries: Seq<EntryView> },
    Dataset { name: Seq<char>, lower: Seq<char>, shape: Seq<usize>, dtype: Seq<char> },
    Other { name: Seq<char>, lower: Seq<char> },
}

impl EntryView {
    /// The name in lower case.
    pub open spec fn lower_name(self) -> Seq<char> {
        match self {
            EntryView::Group { lower, .. } => lower,
            EntryView::Dataset { lower, .. } => lower,
            EntryView::Other { lower, .. } => lower,
        }
    }
}

/// A group or dataset of a file.
#[derive(Debug)]
pub struct Node {
    pub name: String,
    pub name_lower: String,
    pub path: String,
    pub parent: usize,
    pub is_group: bool,
    pub shape: Vec<usize>,
    pub dtype: String,
    pub children: Vec<usize>,
}

/// A group or dataset, in terms of sequences.
pub struct NodeView {
    pub name: Seq<char>,
    pub name_lower: Seq<char>,
    pub path: Seq<char>,
    pub parent: int,
    pub is_group: bool,
    pub shape: Seq<usize>,
    pub dtype: Seq<char>,
    pub children: Seq<usize>,
}

impl View for Node {
    type V = NodeView;

    open spec fn view(&self) -> NodeView {
        NodeView {
            name: self.name@,
            name_lower: self.name_lower@,
            path: self.path@,
            parent: self.parent as int,
            is_group: self.is_group,
            shape: self.shape@,
            dtype: self.dtype@,
            children: self.children@,
        }
    }
}

/// The groups and datasets of a file.
#[derive(Debug)]
pub struct Tree {
    pub file_path: FilePath,
    /// Arena of nodes; index 0 is the root group "/". A parent always has a smaller index than
    /// its children.
    pub nodes: Vec<Node>,
    pub n_groups: usize,
    pub n_datasets: usize,
}

// ---------------------------------------------------------------------------------------------
// The shape of a tree
// ---------------------------------------------------------------------------------------------

/// The path of a member of the group at `path`.
pub open spec fn child_path(path: Seq<char>, name: Seq<char>) -> Seq<char> {
    if path == "/"@ {
        "/"@ + name
    } else {
        path + "/"@ + name
    }
}

/// The root group before it has members.
pub open spec fn bare_root() -> NodeView {
    NodeView {
        name: "/"@,
        name_lower: "/"@,
        path: "/"@,
        parent: 0,
        is_group: true,
        shape: Seq::empty(),
        dtype: Seq::empty(),
        children: Seq::empty(),
    }
}

/// Whether node `i` is listed among `children`.
pub open spec fn lists_child(children: Seq<usize>, i: int) -> bool {
    exists|k: int| 0 <= k < children.len() && #[trigger] children[k] == i
}

/// Whether node `i` hangs on its parent: the parent is a group, stands earlier, lists the node
/// among its children, and its path begins the node's.
pub open spec fn hangs_on_parent(nodes: Seq<NodeView>, i: int) -> bool {
    let n = nodes[i];
    &&& 0 <= n.parent < i
    &&& nodes[n.parent].is_group
    &&& lists_child(nodes[n.parent].children, i)
    &&& n.path == child_path(nodes[n.parent].path, n.name)
}

/// Whether every child of node `i` stands later and has `i` as its parent, and the children are
/// listed in increasing order.
pub open spec fn children_hang_on(nodes: Seq<NodeView>, i: int) -> bool {
    let c = nodes[i].children;
    &&& forall|k: int| 0 <= k < c.len() ==> i < #[trigger] c[k] < nodes.len() && nodes[c[k] as int].parent == i
    &&& forall|k: int, l: int| 0 <= k < l < c.len() ==> c[k] < c[l]
}

/// Whether the nodes form a tree with the root at index 0.
pub open spec fn is_tree(nodes: Seq<NodeView>) -> bool {
    &&& nodes.len() > 0
    &&& nodes[0].is_group
    &&& nodes[0].parent == 0
    &&& nodes[0].path == "/"@
    &&& forall|i: int| 0 < i < nodes.len() ==> #[trigger] hangs_on_parent(nodes, i)
    &&& forall|i: int| 0 <= i < nodes.len() ==> #[trigger] children_hang_on(nodes, i)
    &&& forall|i: int|
        0 <= i < nodes.len() && !(#[trigger] nodes[i]).is_group ==> nodes[i].children.len() == 0
}

/// Whether a node other than the root has its own name in lower case.
pub open spec fn is_lowered(nodes: Seq<NodeView>, i: int) -> bool {
    i > 0 ==> nodes[i].name_lower == lowercase(nodes[i].name)
}

/// How many of the nodes are groups.
pub open spec fn group_count(nodes: Seq<NodeView>) -> nat
    decreases nodes.len(),
{
    if nodes.len() == 0 {
        0
    } else {
        group_count(nodes.drop_last()) + if nodes.last().is_group {
            1nat
        } else {
            0nat
        }
    }
}

// ---------------------------------------------------------------------------------------------
// How members are laid out
// ---------------------------------------------------------------------------------------------

/// What an entry is, in terms of sequences.
pub open spec fn entry_view(e: Entry) -> EntryView
    decreases e, 0nat,
{
    match e {
        Entry::Group { name, lower, entries } => EntryView::Group {
            name: name@,
            lower: lower@,
            entries: entry_views(entries@, entries@.len()),
        },
        Entry::Dataset { name, lower, shape, dtype } => EntryView::Dataset {
            name: name@,
            lower: lower@,
            shape: shape@,
            dtype: dtype@,
        },
        Entry::Other { name, lower } => EntryView::Other { name: name@, lower: lower@ },
    }
}

/// What the first `k` entries are, in terms of sequences.
pub open spec fn entry_views(es: Seq<Entry>, k: nat) -> Seq<EntryView>
    decreases es, k,
{
    if k == 0 || k > es.len() {
        Seq::empty()
    } else {
        entry_views(es, (k - 1) as nat).push(entry_view(es[k - 1]))
    }
}

/// The text shown for the datatype of a dataset.
pub open spec fn dtype_text(td: Option<TypeDesc>) -> Seq<char> {
    match td {
        Some(td) => name_of_type(td),
        None => "?"@,
    }
}

/// A member with its name, and those of all below it, in lower case beside them.
pub open spec fn lowered(m: Member) -> EntryView
    decreases m, 0nat,
{
    match m {
        Member::Group(name, ms) => EntryView::Group {
            name: name@,
            lower: lowercase(name@),
            entries: lowered_all(ms@, ms@.len()),
        },
        Member::Dataset(name, shape, td) => EntryView::Dataset {
            name: name@,
            lower: lowercase(name@),
            shape: shape@,
            dtype: dtype_text(td),
        },
        Member::Other(name) => EntryView::Other { name: name@, lower: lowercase(name@) },
    }
}

/// The first `k` members with their names in lower case.
pub open spec fn lowered_all(ms: Seq<Member>, k: nat) -> Seq<EntryView>
    decreases ms, k,
{
    if k == 0 || k > ms.len() {
        Seq::empty()
    } else {
        lowered_all(ms, (k - 1) as nat).push(lowered(ms[k - 1]))
    }
}

/// The members with their names in lower case are as many, and in the same order.
pub proof fn lowered_all_is_each_lowered(ms: Seq<Member>, k: nat)
    requires
        k <= ms.len(),
    ensures
        lowered_all(ms, k).len() == k,
        forall|i: int| 0 <= i < k ==> #[trigger] lowered_all(ms, k)[i] == lowered(ms[i]),
    decreases k,
{
    if k > 0 {
        lowered_all_is_each_lowered(ms, (k - 1) as nat);
    }
}

proof fn entry_views_are_each_view(es: Seq<Entry>, k: nat)
    requires
        k <= es.len(),
    ensures
        entry_views(es, k).len() == k,
        forall|i: int| 0 <= i < k ==> #[trigger] entry_views(es, k)[i] == entry_view(es[i]),
    decreases k,
{
    if k > 0 {
        entry_views_are_each_view(es, (k - 1) as nat);
    }
}

/// The names that members are sorted by.
pub open spec fn sort_names(es: Seq<EntryView>) -> Seq<Seq<char>> {
    Seq::new(es.len(), |i: int| es[i].lower_name())
}

/// The positions of the members in the order in which they are shown: by name without regard to
/// case, and members with level names as they came.
pub open spec fn display_order(es: Seq<EntryView>) -> Seq<usize> {
    stable_order_of::<String>(sort_names(es))
}

/// How many nodes a member makes.
pub open spec fn node_count(e: EntryView) -> nat
    decreases e, 0nat,
{
    match e {
        EntryView::Group { entries, .. } => 1 + node_counts(entries, entries.len()),
        EntryView::Dataset { .. } => 1,
        EntryView::Other { .. } => 0,
    }
}

/// How many nodes the first `k` members make, in the order in which they are shown.
pub open spec fn node_counts(es: Seq<EntryView>, k: nat) -> nat
    decreases es, k,
{
    if k == 0 {
        0
    } else {
        let i = display_order(es)[k - 1];
        node_counts(es, (k - 1) as nat) + if 0 <= i < es.len() {
            node_count(es[i as int])
        } else {
            0
        }
    }
}

/// The indices of the children that the first `k` members give their group, where the nodes from
/// index `base` on are theirs: each child stands right after everything that belongs to the one
/// before it.
pub open spec fn child_slots(base: int, es: Seq<EntryView>, k: nat) -> Seq<usize>
    decreases k,
{
    if k == 0 {
        Seq::empty()
    } else {
        let before = child_slots(base, es, (k - 1) as nat);
        if es[display_order(es)[k - 1] as int] is Other {
            before
        } else {
            before.push((base + node_counts(es, (k - 1) as nat)) as usize)
        }
    }
}

/// Whether the node at index `at`, with all below it, is the member `e` of the group at index
/// `parent` with path `path`.
pub open spec fn entry_laid_out(
    nodes: Seq<NodeView>,
    at: int,
    parent: int,
    path: Seq<char>,
    e: EntryView,
) -> bool
    decreases e, 0nat,
{
    match e {
        EntryView::Group { name, lower, entries } => {
            &&& nodes[at] == NodeView {
                name,
                name_lower: lower,
                path: child_path(path, name),
                parent,
                is_group: true,
                shape: Seq::empty(),
                dtype: Seq::empty(),
                children: child_slots(at + 1, entries, entries.len()),
            }
            &&& entries_laid_out(nodes, at + 1, at, child_path(path, name), entries, entries.len())
        },
        EntryView::Dataset { name, lower, shape, dtype } => nodes[at] == NodeView {
            name,
            name_lower: lower,
            path: child_path(path, name),
            parent,
            is_group: false,
            shape,
            dtype,
            children: Seq::empty(),
        },
        EntryView::Other { .. } => true,
    }
}

/// Whether the nodes from index `base` on are the first `k` members of the group at index
/// `parent` with path `path`, in the order in which they are shown, each with all below it.
pub open spec fn entries_laid_out(
    nodes: Seq<NodeView>,
    base: int,
    parent: int,
    path: Seq<char>,
    es: Seq<EntryView>,
    k: nat,
) -> bool
    decreases es, k,
{
    k == 0 || {
        let i = display_order(es)[k - 1];
        &&& entries_laid_out(nodes, base, parent, path, es, (k - 1) as nat)
        &&& 0 <= i < es.len() ==> entry_laid_out(
            nodes,
            base + node_counts(es, (k - 1) as nat),
            parent,
            path,
            es[i as int],
        )
    }
}

/// Whether the nodes are the content of a file whose root group has the members `es`.
pub open spec fn lays_out_file(nodes: Seq<NodeView>, es: Seq<EntryView>) -> bool {
    &&& nodes.len() == 1 + node_counts(es, es.len())
    &&& nodes[0] == NodeView { children: child_slots(1, es, es.len()), ..bare_root() }
    &&& entries_laid_out(nodes, 1, 0, "/"@, es, es.len())
}

/// Whether `after` is `before` with the members `es` of the group at index `parent` filled in at
/// the end: the group lists them after the children that it had, and all other nodes stay.
pub open spec fn fills_in(
    before: Seq<NodeView>,
    parent: int,
    es: Seq<EntryView>,
    after: Seq<NodeView>,
) -> bool {
    let base = before.len() as int;
    &&& after.len() == base + node_counts(es, es.len())
    &&& forall|i: int| 0 <= i < base && i != parent ==> #[trigger] after[i] == before[i]
    &&& after[parent] == NodeView {
        children: before[parent].children + child_slots(base, es, es.len()),
        ..before[parent]
    }
    &&& entries_laid_out(after, base, parent, before[parent].path, es, es.len())
}

/// A layout depends on its own nodes alone.
proof fn entry_layout_is_local(
    a: Seq<NodeView>,
    b: Seq<NodeView>,
    at: int,
    parent: int,
    path: Seq<char>,
    e: EntryView,
)
    requires
        entry_laid_out(a, at, parent, path, e),
        forall|i: int| at <= i < at + node_count(e) ==> #[trigger] a[i] == b[i],
    ensures
        entry_laid_out(b, at, parent, path, e),
    decreases e, 0nat,
{
    match e {
        EntryView::Group { name, entries, .. } => {
            assert(a[at] == b[at]);
            entries_layout_is_local(
                a,
                b,
                at + 1,
                at,
                child_path(path, name),
                entries,
                entries.len(),
            );
        },
        EntryView::Dataset { .. } => {
            assert(a[at] == b[at]);
        },
        EntryView::Other { .. } => {},
    }
}

proof fn entries_layout_is_local(
    a: Seq<NodeView>,
    b: Seq<NodeView>,
    base: int,
    parent: int,
    path: Seq<char>,
    es: Seq<EntryView>,
    k: nat,
)
    requires
        entries_laid_out(a, base, parent, path, es, k),
        forall|i: int| base <= i < base + node_counts(es, k) ==> #[trigger] a[i] == b[i],
    ensures
        entries_laid_out(b, base, parent, path, es, k),
    decreases es, k,
{
    if k > 0 {
        let i = display_order(es)[k - 1];
        entries_layout_is_local(a, b, base, parent, path, es, (k - 1) as nat);
        if 0 <= i < es.len() {
            entry_layout_is_local(
                a,
                b,
                base + node_counts(es, (k - 1) as nat),
                parent,
                path,
                es[i as int],
            );
        }
    }
}

/// Whether the children of node `i` are in the order of their names, without regard to case.
pub open spec fn has_sorted_children(nodes: Seq<NodeView>, i: int) -> bool {
    let c = nodes[i].children;
    forall|k: int, l: int|
        0 <= k < l < c.len() ==> text_at_most(
            nodes[#[trigger] c[k] as int].name_lower,
            nodes[#[trigger] c[l] as int].name_lower,
        )
}

/// More members make no fewer nodes.
proof fn node_counts_grow(es: Seq<EntryView>, j: nat, k: nat)
    requires
        j <= k,
    ensures
        node_counts(es, j) <= node_counts(es, k),
    decreases k,
{
    if j < k {
        node_counts_grow(es, j, (k - 1) as nat);
    }
}

/// The children that the first members give a group are sorted, and come before those of the
/// later members.
proof fn slots_are_sorted(
    nodes: Seq<NodeView>,
    base: int,
    parent: int,
    path: Seq<char>,
    es: Seq<EntryView>,
    k: nat,
)
    requires
        k <= es.len() <= usize::MAX,
        entries_laid_out(nodes, base, parent, path, es, k),
        0 <= base,
        base + node_counts(es, k) <= usize::MAX,
    ensures
        ({
            let s = child_slots(base, es, k);
            &&& forall|c: int, j: int|
                0 <= c < s.len() && k <= j < es.len() ==> text_at_most(
                    nodes[#[trigger] s[c] as int].name_lower,
                    sort_names(es)[#[trigger] display_order(es)[j] as int],
                )
            &&& forall|c: int, d: int|
                0 <= c < d < s.len() ==> text_at_most(
                    nodes[#[trigger] s[c] as int].name_lower,
                    nodes[#[trigger] s[d] as int].name_lower,
                )
        }),
    decreases k,
{
    let names = sort_names(es);
    let order = display_order(es);
    stable_order_exists::<String>(names);
    if k > 0 {
        let j = (k - 1) as nat;
        node_counts_grow(es, j, k);
        slots_are_sorted(nodes, base, parent, path, es, j);
        let m = order[j as int] as int;
        assert(0 <= m < es.len());
        let before = child_slots(base, es, j);
        let s = child_slots(base, es, k);
        if !(es[m] is Other) {
            let slot = base + node_counts(es, j);
            assert(node_count(es[m]) >= 1);
            assert(node_counts(es, k) == node_counts(es, j) + node_count(es[m]));
            assert(entry_laid_out(nodes, slot, parent, path, es[m]));
            assert(nodes[slot].name_lower == names[m]);
            assert(s.last() == slot);
            assert forall|c: int, i: int| 0 <= c < s.len() && k <= i < es.len() implies text_at_most(
                nodes[#[trigger] s[c] as int].name_lower,
                names[#[trigger] order[i] as int],
            ) by {
                assert(comes_before::<String>(names, order[j as int] as int, order[i] as int));
                if c < before.len() {
                    assert(s[c] == before[c]);
                }
            }
            assert forall|c: int, d: int| 0 <= c < d < s.len() implies text_at_most(
                nodes[#[trigger] s[c] as int].name_lower,
                nodes[#[trigger] s[d] as int].name_lower,
            ) by {
                assert(s[c] == before[c]);
                if d < before.len() {
                    assert(s[d] == before[d]);
                } else {
                    assert(text_at_most(
                        nodes[before[c] as int].name_lower,
                        names[order[j as int] as int],
                    ));
                }
            }
        }
    }
}

/// The nodes of a member have sorted children and their own names in lower case.
proof fn member_is_in_order(
    nodes: Seq<NodeView>,
    at: int,
    parent: int,
    path: Seq<char>,
    m: Member,
)
    requires
        entry_laid_out(nodes, at, parent, path, lowered(m)),
        0 <= at,
        at + node_count(lowered(m)) <= usize::MAX,
    ensures
        forall|i: int|
            at <= i < at + node_count(lowered(m)) ==> #[trigger] has_sorted_children(nodes, i),
        forall|i: int| at <= i < at + node_count(lowered(m)) ==> #[trigger] is_lowered(nodes, i),
    decreases m, 0nat,
{
    match m {
        Member::Group(name, ms) => {
            assert(ms@.len() == ms.len());
            let below = child_path(path, name@);
            let es = lowered_all(ms@, ms@.len());
            lowered_all_is_each_lowered(ms@, ms@.len());
            slots_are_sorted(nodes, at + 1, at, below, es, es.len());
            members_are_in_order(nodes, at + 1, at, below, ms@, ms@.len());
            assert(has_sorted_children(nodes, at));
            assert(is_lowered(nodes, at));
        },
        Member::Dataset(_, _, _) => {
            assert(node_count(lowered(m)) == 1);
            assert(has_sorted_children(nodes, at));
            assert(is_lowered(nodes, at));
        },
        Member::Other(_) => {
            assert(node_count(lowered(m)) == 0);
        },
    }
}

proof fn members_are_in_order(
    nodes: Seq<NodeView>,
    base: int,
    parent: int,
    path: Seq<char>,
    ms: Seq<Member>,
    k: nat,
)
    requires
        k <= ms.len(),
        entries_laid_out(nodes, base, parent, path, lowered_all(ms, ms.len()), k),
        0 <= base,
        base + node_counts(lowered_all(ms, ms.len()), k) <= usize::MAX,
    ensures
        forall|i: int|
            base <= i < base + node_counts(lowered_all(ms, ms.len()), k)
                ==> #[trigger] has_sorted_children(nodes, i),
        forall|i: int|
            base <= i < base + node_counts(lowered_all(ms, ms.len()), k) ==> #[trigger] is_lowered(
                nodes,
                i,
            ),
    decreases ms, k,
{
    if k > 0 {
        let es = lowered_all(ms, ms.len());
        lowered_all_is_each_lowered(ms, ms.len());
        let m = display_order(es)[k - 1];
        node_counts_grow(es, (k - 1) as nat, k);
        members_are_in_order(nodes, base, parent, path, ms, (k - 1) as nat);
        if 0 <= m < es.len() {
            assert(es[m as int] == lowered(ms[m as int]));
            member_is_in_order(
                nodes,
                base + node_counts(es, (k - 1) as nat),
                parent,
                path,
                ms[m as int],
            );
        }
    }
}

/// Every group of a file shows its members by name, without regard to case.
pub proof fn file_is_sorted(nodes: Seq<NodeView>, ms: Seq<Member>, i: int)
    requires
        lays_out_file(nodes, lowered_all(ms, ms.len())),
        nodes.len() <= usize::MAX,
        ms.len() <= usize::MAX,
        0 <= i < nodes.len(),
    ensures
        has_sorted_children(nodes, i),
{
    let es = lowered_all(ms, ms.len());
    lowered_all_is_each_lowered(ms, ms.len());
    slots_are_sorted(nodes, 1, 0, "/"@, es, es.len());
    members_are_in_order(nodes, 1, 0, "/"@, ms, ms.len());
    assert(has_sorted_children(nodes, 0));
}

// ---------------------------------------------------------------------------------------------
// Building
// ---------------------------------------------------------------------------------------------

/// The path of a member of the group at `path`.
fn member_path(path: &str, name: &str) -> (r: String)
    ensures
        r@ == child_path(path@, name@),
{
    let mut r = if same_text(path, "/") {
        String::new()
    } else {
        path.to_owned()
    };
    let ghost start = r@;
    r.append("/");
    r.append(name);
    assert(start =~= Seq::empty() ==> r@ =~= "/"@ + name@);
    r
}

/// A tree stays one when a group gets one more child at the end.
proof fn tree_grows(a: Seq<NodeView>, b: Seq<NodeView>, parent: int)
    requires
        is_tree(a),
        0 <= parent < a.len(),
        a[parent].is_group,
        a.len() < usize::MAX,
        b.len() == a.len() + 1,
        forall|i: int| 0 <= i < a.len() && i != parent ==> #[trigger] b[i] == a[i],
        b[parent] == (NodeView {
            children: a[parent].children.push(a.len() as usize),
            ..a[parent]
        }),
        b.last().parent == parent,
        b.last().path == child_path(a[parent].path, b.last().name),
        b.last().children.len() == 0,
    ensures
        is_tree(b),
{
    let n = a.len() as int;
    assert(children_hang_on(a, parent));
    assert(b[parent].children.last() == n as usize);
    assert(b[parent].children[b[parent].children.len() - 1] == n as usize);
    assert forall|i: int| 0 < i < b.len() implies #[trigger] hangs_on_parent(b, i) by {
        if i < n {
            assert(hangs_on_parent(a, i));
            let p = a[i].parent;
            assert(b[i].parent == p);
            let k = choose|k: int|
                0 <= k < a[p].children.len() && #[trigger] a[p].children[k] == i;
            assert(b[p].children[k] == i);
        }
    }
    assert forall|i: int| 0 <= i < b.len() implies #[trigger] children_hang_on(b, i) by {
        if i < n {
            assert(children_hang_on(a, i));
            let c = b[i].children;
            assert forall|k: int| 0 <= k < c.len() implies i < #[trigger] c[k] < b.len()
                && b[c[k] as int].parent == i by {
                if i == parent && k == c.len() - 1 {
                } else {
                    assert(c[k] == a[i].children[k]);
                    assert(a[a[i].children[k] as int].parent == i);
                }
            }
            assert forall|k: int, l: int| 0 <= k < l < c.len() implies c[k] < c[l] by {
                assert(c[k] == a[i].children[k]);
                if i == parent && l == c.len() - 1 {
                    assert(a[i].children[k] < n);
                } else {
                    assert(c[l] == a[i].children[l]);
                }
            }
        }
    }
    assert forall|i: int| 0 <= i < b.len() && !(#[trigger] b[i]).is_group implies b[i].children.len()
        == 0 by {
        if i < n {
            assert(!a[i].is_group);
        }
    }
    if parent != 0 {
        assert(b[0] == a[0]);
    }
}

/// Adds a node at the end and lists it as the last child of `parent`.
fn add_child(nodes: &mut Vec<Node>, parent: usize, node: Node) -> (idx: usize)
    requires
        is_tree(views(old(nodes)@)),
        parent < old(nodes).len(),
        old(nodes)@[parent as int].is_group,
        node@.parent == parent,
        node@.path == child_path(old(nodes)@[parent as int].path@, node@.name),
        node@.children.len() == 0,
    ensures
        idx == old(nodes).len(),
        final(nodes)@.len() == old(nodes)@.len() + 1,
        views(final(nodes)@).last() == node@,
        forall|i: int|
            0 <= i < old(nodes)@.len() && i != parent ==> #[trigger] views(final(nodes)@)[i]
                == views(old(nodes)@)[i],
        views(final(nodes)@)[parent as int] == (NodeView {
            children: views(old(nodes)@)[parent as int].children.push(idx),
            ..views(old(nodes)@)[parent as int]
        }),
        is_tree(views(final(nodes)@)),
{
    let ghost a = views(nodes@);
    let idx: usize = nodes.len();
    nodes.push(node);
    nodes[parent].children.push(idx);
    proof {
        let b = views(nodes@);
        assert(b[parent as int].children =~= a[parent as int].children.push(idx));
        assert forall|i: int| 0 <= i < a.len() && i != parent implies #[trigger] b[i] == a[i] by {}
        assert(b.last() == node@);
        assert(nodes@.len() == nodes.len());
        tree_grows(a, b, parent as int);
    }
    idx
}

/// The names in lower case that the entries are sorted by.
fn lower_names(entries: &Vec<Entry>) -> (keys: Vec<String>)
    ensures
        views(keys@) == sort_names(entry_views(entries@, entries@.len())),
{
    let ghost es = entry_views(entries@, entries@.len());
    proof {
        entry_views_are_each_view(entries@, entries@.len());
    }
    let mut keys: Vec<String> = Vec::new();
    let mut i: usize = 0;
    while i < entries.len()
        invariant
            i <= entries.len(),
            keys.len() == i,
            es.len() == entries.len(),
            forall|j: int| 0 <= j < es.len() ==> #[trigger] es[j] == entry_view(entries@[j]),
            forall|j: int| 0 <= j < i ==> (#[trigger] keys@[j])@ == es[j].lower_name(),
        decreases entries.len() - i,
    {
        assert(es[i as int] == entry_view(entries@[i as int]));
        let key = match &entries[i] {
            Entry::Group { lower, .. } => lower.clone(),
            Entry::Dataset { lower, .. } => lower.clone(),
            Entry::Other { lower, .. } => lower.clone(),
        };
        keys.push(key);
        i = i + 1;
    }
    assert(views(keys@) =~= sort_names(es));
    keys
}

/// Fills in the members of the group at index `parent` and all below them, each group's in the
/// order of their names in lower case.
pub fn lay_out(entries: &Vec<Entry>, parent: usize, nodes: &mut Vec<Node>)
    requires
        is_tree(views(old(nodes)@)),
        parent < old(nodes)@.len(),
        old(nodes)@[parent as int].is_group,
    ensures
        is_tree(views(final(nodes)@)),
        fills_in(
            views(old(nodes)@),
            parent as int,
            entry_views(entries@, entries@.len()),
            views(final(nodes)@),
        ),
    decreases entries,
{
    let ghost start = views(nodes@);
    let ghost base = start.len() as int;
    let ghost path = start[parent as int].path;
    let ghost es = entry_views(entries@, entries@.len());
    let keys = lower_names(entries);
    let order = stable_order(&keys);
    let mut k: usize = 0;
    proof {
        entry_views_are_each_view(entries@, entries@.len());
        assert(start[parent as int] == nodes@[parent as int]@);
        assert(start[parent as int].children =~= start[parent as int].children + child_slots(
            base,
            es,
            0,
        ));
    }
    while k < order.len()
        invariant
            es.len() == entries@.len(),
            forall|j: int| 0 <= j < es.len() ==> #[trigger] es[j] == entry_view(entries@[j]),
            order@ == display_order(es),
            is_stable_order::<String>(sort_names(es), order@),
            k <= order.len(),
            base == start.len(),
            parent < base,
            start[parent as int].is_group,
            path == start[parent as int].path,
            is_tree(views(nodes@)),
            nodes@.len() == base + node_counts(es, k as nat),
            forall|i: int|
                0 <= i < base && i != parent ==> #[trigger] views(nodes@)[i] == start[i],
            views(nodes@)[parent as int] == (NodeView {
                children: start[parent as int].children + child_slots(base, es, k as nat),
                ..start[parent as int]
            }),
            entries_laid_out(views(nodes@), base, parent as int, path, es, k as nat),
        decreases order.len() - k,
    {
        let ghost before = views(nodes@);
        assert(order@[k as int] < es.len());
        let at: usize = order[k];
        assert(es[at as int] == entry_view(entries@[at as int]));
        assert(nodes@[parent as int]@ == before[parent as int]);
        let parent_path = nodes[parent].path.clone();
        let ghost listed = start[parent as int].children;
        match &entries[at] {
            Entry::Group { name, lower, entries: sub } => {
                let node = Node {
                    name: name.clone(),
                    name_lower: lower.clone(),
                    path: member_path(parent_path.as_str(), name.as_str()),
                    parent,
                    is_group: true,
                    shape: Vec::new(),
                    dtype: String::new(),
                    children: Vec::new(),
                };
                let ghost bare = node@;
                let idx = add_child(nodes, parent, node);
                let ghost mid = views(nodes@);
                assert(mid[idx as int] == bare);
                assert(decreases_to!(entries => sub));
                lay_out(sub, idx, nodes);
                proof {
                    let after = views(nodes@);
                    let below = entry_views(sub@, sub@.len());
                    assert(after[parent as int] == mid[parent as int]);
                    assert(bare.children + child_slots(idx + 1, below, below.len())
                        =~= child_slots(idx + 1, below, below.len()));
                    assert(bare.shape =~= Seq::empty());
                    assert forall|i: int| base <= i < base + node_counts(es, k as nat) implies
                        #[trigger] before[i] == after[i] by {
                        assert(mid[i] == before[i]);
                    }
                    entries_layout_is_local(
                        before,
                        after,
                        base,
                        parent as int,
                        path,
                        es,
                        k as nat,
                    );
                    assert(entry_laid_out(after, idx as int, parent as int, path, es[at as int]));
                    assert(node_counts(es, (k + 1) as nat) == node_counts(es, k as nat)
                        + node_count(es[at as int]));
                    assert(entries_laid_out(after, base, parent as int, path, es, (k + 1) as nat));
                    assert((listed + child_slots(base, es, k as nat)).push(idx) =~= listed
                        + child_slots(base, es, (k + 1) as nat));
                    assert forall|i: int| 0 <= i < base && i != parent implies #[trigger] after[i]
                        == start[i] by {
                        assert(mid[i] == before[i]);
                    }
                }
            },
            Entry::Dataset { name, lower, shape, dtype } => {
                let node = Node {
                    name: name.clone(),
                    name_lower: lower.clone(),
                    path: member_path(parent_path.as_str(), name.as_str()),
                    parent,
                    is_group: false,
                    shape: shape.clone(),
                    dtype: dtype.clone(),
                    children: Vec::new(),
                };
                let ghost leaf = node@;
                assert(leaf.shape =~= shape@);
                assert(leaf.children =~= Seq::empty());
                let idx = add_child(nodes, parent, node);
                proof {
                    let after = views(nodes@);
                    assert(after[idx as int] == leaf);
                    entries_layout_is_local(
                        before,
                        after,
                        base,
                        parent as int,
                        path,
                        es,
                        k as nat,
                    );
                    assert(entry_laid_out(after, idx as int, parent as int, path, es[at as int]));
                    assert(node_count(es[at as int]) == 1);
                    assert(node_counts(es, (k + 1) as nat) == node_counts(es, k as nat)
                        + node_count(es[at as int]));
                    assert(entries_laid_out(after, base, parent as int, path, es, (k + 1) as nat));
                    assert((listed + child_slots(base, es, k as nat)).push(idx) =~= listed
                        + child_slots(base, es, (k + 1) as nat));
                }
            },
            Entry::Other { .. } => {
                assert(node_count(es[at as int]) == 0);
                assert(node_counts(es, (k + 1) as nat) == node_counts(es, k as nat)
                    + node_count(es[at as int]));
                assert(entry_laid_out(
                    before,
                    base + node_counts(es, k as nat),
                    parent as int,
                    path,
                    es[at as int],
                ));
                assert(entries_laid_out(before, base, parent as int, path, es, (k + 1) as nat));
            },
        }
        k = k + 1;
    }
}

/// The members with their names, and those of all below them, in lower case beside them.
pub fn lower_members(members: &Vec<Member>) -> (entries: Vec<Entry>)
    ensures
        entry_views(entries@, entries@.len()) == lowered_all(members@, members@.len()),
    decreases members,
{
    let mut entries: Vec<Entry> = Vec::new();
    let mut i: usize = 0;
    while i < members.len()
        invariant
            i <= members.len(),
            entries@.len() == i,
            forall|j: int| 0 <= j < i ==> entry_view(#[trigger] entries@[j]) == lowered(members@[j]),
        decreases members.len() - i,
    {
        let ghost before = entries@;
        let entry = match &members[i] {
            Member::Group(name, sub) => {
                assert(decreases_to!(members => sub));
                Entry::Group {
                    name: name.clone(),
                    lower: to_lower(name.as_str()),
                    entries: lower_members(sub),
                }
            },
            Member::Dataset(name, shape, td) => {
                let dtype = match td {
                    Some(td) => dtype_name(td),
                    None => "?".to_owned(),
                };
                let shape = shape.clone();
                Entry::Dataset {
                    name: name.clone(),
                    lower: to_lower(name.as_str()),
                    shape,
                    dtype,
                }
            },
            Member::Other(name) => Entry::Other {
                name: name.clone(),
                lower: to_lower(name.as_str()),
            },
        };
        assert(entry_view(entry) == lowered(members@[i as int])) by {
            if let Member::Dataset(_, shape, _) = members@[i as int] {
                assert(entry_view(entry)->Dataset_shape =~= shape@);
            }
        }
        entries.push(entry);
        i = i + 1;
    }
    proof {
        entry_views_are_each_view(entries@, entries@.len());
        lowered_all_is_each_lowered(members@, members@.len());
        assert(entry_views(entries@, entries@.len()) =~= lowered_all(members@, members@.len()));
    }
    entries
}

/// Fills in the members of the group at index `parent` and all below them, each group's in the
/// order of their names without regard to case.
pub fn walk(members: &Vec<Member>, parent: usize, nodes: &mut Vec<Node>)
    requires
        is_tree(views(old(nodes)@)),
        parent < old(nodes)@.len(),
        old(nodes)@[parent as int].is_group,
    ensures
        is_tree(views(final(nodes)@)),
        fills_in(
            views(old(nodes)@),
            parent as int,
            lowered_all(members@, members@.len()),
            views(final(nodes)@),
        ),
{
    let entries = lower_members(members);
    lay_out(&entries, parent, nodes);
}

impl Tree {
    /// The nodes form a tree, with their names in lower case beside them, and the counts are
    /// those of its groups, without the root, and of its datasets.
    pub open spec fn wf(&self) -> bool {
        let nodes = views(self.nodes@);
        &&& is_tree(nodes)
        &&& forall|i: int| 0 <= i < nodes.len() ==> #[trigger] is_lowered(nodes, i)
        &&& self.n_groups + 1 == group_count(nodes)
        &&& self.n_datasets + group_count(nodes) == nodes.len()
    }

    /// The first child of a group with this name.
    pub fn child_named(&self, group_idx: usize, name: &str) -> (r: Option<usize>)
        requires
            self.wf(),
            group_idx < self.nodes@.len(),
        ensures
            r == first_child_named(views(self.nodes@), group_idx as int, name@),
            r is Some ==> r->0 < self.nodes@.len(),
    {
        let ghost nodes = views(self.nodes@);
        let children = &self.nodes[group_idx].children;
        let mut k: usize = 0;
        assert(nodes[group_idx as int].children == children@);
        assert(children@.skip(0) =~= children@);
        while k < children.len()
            invariant
                k <= children.len(),
                nodes == views(self.nodes@),
                is_tree(nodes),
                group_idx < nodes.len(),
                nodes[group_idx as int].children == children@,
                first_child_named(nodes, group_idx as int, name@) == first_named(
                    nodes,
                    children@.skip(k as int),
                    name@,
                ),
            decreases children.len() - k,
        {
            assert(children_hang_on(nodes, group_idx as int));
            let c: usize = children[k];
            assert(c == children@[k as int]);
            assert(children@.skip(k as int)[0] == c);
            assert(children@.skip(k as int).skip(1) =~= children@.skip(k + 1));
            assert(nodes[c as int].name == self.nodes@[c as int].name@);
            if same_text(self.nodes[c].name.as_str(), name) {
                return Some(c);
            }
            k = k + 1;
        }
        None
    }

    /// Node with exactly this HDF5 path, if the file has one (used to find the same PV in other
    /// open files).
    pub fn node_by_path(&self, path: &str) -> (r: Option<usize>)
        ensures
            r == node_at_path(views(self.nodes@), path@),
            match r {
                Some(i) => {
                    &&& i < self.nodes@.len()
                    &&& self.nodes@[i as int].path@ == path@
                    &&& forall|j: int| 0 <= j < i ==> (#[trigger] self.nodes@[j]).path@ != path@
                },
                None => forall|j: int|
                    0 <= j < self.nodes@.len() ==> (#[trigger] self.nodes@[j]).path@ != path@,
            },
    {
        let ghost nodes = views(self.nodes@);
        let mut i: usize = 0;
        while i < self.nodes.len()
            invariant
                i <= self.nodes.len(),
                nodes == views(self.nodes@),
                node_at_path(nodes.take(i as int), path@) is None,
                forall|j: int| 0 <= j < i ==> (#[trigger] self.nodes@[j]).path@ != path@,
            decreases self.nodes.len() - i,
        {
            assert(nodes.take(i + 1).drop_last() =~= nodes.take(i as int));
            assert(nodes.take(i + 1).last() == self.nodes@[i as int]@);
            if same_text(self.nodes[i].path.as_str(), path) {
                proof {
                    node_at_path_stays(nodes, path@, i + 1);
                }
                return Some(i);
            }
            i = i + 1;
        }
        assert(nodes.take(i as int) =~= nodes);
        None
    }
}

/// The first node with this path.
pub open spec fn node_at_path(nodes: Seq<NodeView>, path: Seq<char>) -> Option<usize>
    decreases nodes.len(),
{
    if nodes.len() == 0 {
        None
    } else {
        match node_at_path(nodes.drop_last(), path) {
            Some(i) => Some(i),
            None => if nodes.last().path == path {
                Some((nodes.len() - 1) as usize)
            } else {
                None
            },
        }
    }
}

/// A node found among the first `k` is found among all.
proof fn node_at_path_stays(nodes: Seq<NodeView>, path: Seq<char>, k: int)
    requires
        0 <= k <= nodes.len(),
        node_at_path(nodes.take(k), path) is Some,
    ensures
        node_at_path(nodes, path) == node_at_path(nodes.take(k), path),
    decreases nodes.len(),
{
    if k < nodes.len() {
        assert(nodes.drop_last().take(k) =~= nodes.take(k));
        node_at_path_stays(nodes.drop_last(), path, k);
    } else {
        assert(nodes.take(k) =~= nodes);
    }
}

/// The first of the given nodes with this name.
pub open spec fn first_named(nodes: Seq<NodeView>, among: Seq<usize>, name: Seq<char>) -> Option<
    usize,
>
    decreases among.len(),
{
    if among.len() == 0 {
        None
    } else if nodes[among[0] as int].name == name {
        Some(among[0])
    } else {
        first_named(nodes, among.skip(1), name)
    }
}

/// The first child of a group with this name.
pub open spec fn first_child_named(nodes: Seq<NodeView>, group: int, name: Seq<char>) -> Option<
    usize,
> {
    first_named(nodes, nodes[group].children, name)
}

/// The first of the given nodes with a name is one of them and has the name.
proof fn first_named_is_among(nodes: Seq<NodeView>, among: Seq<usize>, name: Seq<char>)
    ensures
        first_named(nodes, among, name) matches Some(c) ==> among.contains(c)
            && nodes[c as int].name == name,
        first_named(nodes, among, name) is None ==> forall|k: int|
            0 <= k < among.len() ==> nodes[#[trigger] among[k] as int].name != name,
    decreases among.len(),
{
    if among.len() > 0 && nodes[among[0] as int].name != name {
        let rest = among.skip(1);
        first_named_is_among(nodes, rest, name);
        if let Some(c) = first_named(nodes, rest, name) {
            let k = choose|k: int| 0 <= k < rest.len() && rest[k] == c;
            assert(among[k + 1] == c);
        } else {
            assert forall|k: int| 0 <= k < among.len() implies nodes[#[trigger] among[k] as int].name
                != name by {
                if k > 0 {
                    assert(rest[k - 1] == among[k]);
                }
            }
        }
    } else if among.len() > 0 {
        assert(among.contains(among[0]));
    }
}

/// A child found by name has that name and hangs on the group; where none is found, no child
/// has the name.
pub proof fn child_named_is_a_child(nodes: Seq<NodeView>, group: int, name: Seq<char>)
    requires
        is_tree(nodes),
        0 <= group < nodes.len(),
    ensures
        first_child_named(nodes, group, name) matches Some(c) ==> c < nodes.len()
            && nodes[c as int].parent == group && nodes[c as int].name == name,
        first_child_named(nodes, group, name) is None ==> forall|i: int|
            0 < i < nodes.len() && #[trigger] nodes[i].parent == group ==> nodes[i].name != name,
{
    let c = nodes[group].children;
    assert(children_hang_on(nodes, group));
    first_named_is_among(nodes, c, name);
    if first_child_named(nodes, group, name) is None {
        assert forall|i: int|
            0 < i < nodes.len() && #[trigger] nodes[i].parent == group implies nodes[i].name
            != name by {
            assert(hangs_on_parent(nodes, i));
            let k = choose|k: int| 0 <= k < c.len() && #[trigger] c[k] == i;
            assert(nodes[c[k] as int].name != name);
        }
    }
}

/// Whether the nodes are named as the members of an HDF5 file are: no name is empty or holds a
/// slash, and no two members of a group have the same name.
pub open spec fn are_named(nodes: Seq<NodeView>) -> bool {
    &&& forall|i: int|
        0 < i < nodes.len() ==> (#[trigger] nodes[i]).name.len() > 0 && !nodes[i].name.contains('/')
    &&& forall|i: int, j: int|
        0 < i < j < nodes.len() && nodes[i].parent == nodes[j].parent
            ==> #[trigger] nodes[i].name != #[trigger] nodes[j].name
}

/// Texts that end in a slash and a name without one are the same only where both parts are.
proof fn name_after_slash_is_unique(a: Seq<char>, n: Seq<char>, b: Seq<char>, m: Seq<char>)
    requires
        a + "/"@ + n == b + "/"@ + m,
        !n.contains('/'),
        !m.contains('/'),
    ensures
        a == b,
        n == m,
{
    reveal_strlit("/");
    let s = a + "/"@ + n;
    let t = b + "/"@ + m;
    assert(s.len() == a.len() + 1 + n.len());
    assert(t.len() == b.len() + 1 + m.len());
    assert(s[a.len() as int] == '/');
    assert(t[b.len() as int] == '/');
    if a.len() < b.len() {
        assert(s[b.len() as int] == n[b.len() - a.len() - 1]);
        assert(n.contains('/'));
    }
    if b.len() < a.len() {
        assert(t[a.len() as int] == m[a.len() - b.len() - 1]);
        assert(m.contains('/'));
    }
    assert forall|i: int| 0 <= i < a.len() implies a[i] == b[i] by {
        assert(s[i] == a[i]);
        assert(t[i] == b[i]);
    }
    assert(a =~= b);
    assert forall|i: int| 0 <= i < n.len() implies n[i] == m[i] by {
        assert(s[a.len() + 1 + i] == n[i]);
        assert(t[a.len() + 1 + i] == m[i]);
    }
    assert(n =~= m);
}

/// Two nodes of a file have different paths.
pub proof fn paths_differ(nodes: Seq<NodeView>, i: int, j: int)
    requires
        is_tree(nodes),
        are_named(nodes),
        0 <= i < j < nodes.len(),
    ensures
        nodes[i].path != nodes[j].path,
    decreases j,
{
    reveal_strlit("/");
    assert(hangs_on_parent(nodes, j));
    let q = nodes[j].parent;
    if nodes[i].path == nodes[j].path {
        path_is_long(nodes, j);
        assert(i > 0);
        assert(hangs_on_parent(nodes, i));
        let p = nodes[i].parent;
        let a = if nodes[p].path == "/"@ {
            Seq::<char>::empty()
        } else {
            nodes[p].path
        };
        let b = if nodes[q].path == "/"@ {
            Seq::<char>::empty()
        } else {
            nodes[q].path
        };
        assert(nodes[i].path =~= a + "/"@ + nodes[i].name);
        assert(nodes[j].path =~= b + "/"@ + nodes[j].name);
        name_after_slash_is_unique(a, nodes[i].name, b, nodes[j].name);
        if p > 0 {
            path_is_long(nodes, p);
        }
        if q > 0 {
            path_is_long(nodes, q);
        }
        assert(nodes[p].path == nodes[q].path);
        if p < q {
            paths_differ(nodes, p, q);
        } else if q < p {
            paths_differ(nodes, q, p);
        }
        assert(nodes[i].name != nodes[j].name);
    }
}

/// The path of a node other than the root is more than a slash.
proof fn path_is_long(nodes: Seq<NodeView>, i: int)
    requires
        is_tree(nodes),
        are_named(nodes),
        0 < i < nodes.len(),
    ensures
        nodes[i].path.len() > 1,
{
    reveal_strlit("/");
    assert(hangs_on_parent(nodes, i));
    assert(nodes[i].name.len() > 0);
}

/// The path of a node leads back to it.
pub proof fn path_leads_to_node(nodes: Seq<NodeView>, i: int)
    requires
        is_tree(nodes),
        are_named(nodes),
        0 <= i < nodes.len() <= usize::MAX,
    ensures
        node_at_path(nodes, nodes[i].path) == Some(i as usize),
{
    let path = nodes[i].path;
    assert(node_at_path(nodes.take(i), path) is None) by {
        no_node_at_path(nodes.take(i), path, nodes, i);
    }
    assert(nodes.take(i + 1).drop_last() =~= nodes.take(i));
    node_at_path_stays(nodes, path, i + 1);
}

proof fn no_node_at_path(part: Seq<NodeView>, path: Seq<char>, nodes: Seq<NodeView>, i: int)
    requires
        is_tree(nodes),
        are_named(nodes),
        0 <= i < nodes.len(),
        part.len() <= i,
        part == nodes.take(part.len() as int),
        path == nodes[i].path,
    ensures
        node_at_path(part, path) is None,
    decreases part.len(),
{
    if part.len() > 0 {
        let k = part.len() - 1;
        assert(part.drop_last() =~= nodes.take(k));
        no_node_at_path(part.drop_last(), path, nodes, i);
        assert(part.last() == nodes[k]);
        paths_differ(nodes, k, i);
    }
}

/// Builds the tree of the file at `file_path` whose root group has the given members.
pub fn load(file_path: FilePath, members: &Vec<Member>) -> (tree: Tree)
    ensures
        tree.wf(),
        tree.file_path == file_path,
        lays_out_file(views(tree.nodes@), lowered_all(members@, members@.len())),
{
    let root = Node {
        name: "/".to_owned(),
        name_lower: "/".to_owned(),
        path: "/".to_owned(),
        parent: 0,
        is_group: true,
        shape: Vec::new(),
        dtype: String::new(),
        children: Vec::new(),
    };
    proof {
        assert(root@.shape =~= Seq::empty());
        assert(root@.children =~= Seq::empty());
        assert(root@ == bare_root());
    }
    let mut nodes: Vec<Node> = Vec::new();
    nodes.push(root);
    assert(is_tree(views(nodes@)));
    let ghost es = lowered_all(members@, members@.len());
    walk(members, 0, &mut nodes);
    proof {
        let all = views(nodes@);
        assert(bare_root().children + child_slots(1, es, es.len()) =~= child_slots(1, es, es.len()));
        lowered_all_is_each_lowered(members@, members@.len());
        assert(nodes@.len() == nodes.len());
        members_are_in_order(all, 1, 0, "/"@, members@, members@.len());
        assert forall|i: int| 0 <= i < all.len() implies #[trigger] is_lowered(all, i) by {}
    }
    let mut groups: usize = 0;
    let mut i: usize = 0;
    let ghost all = views(nodes@);
    while i < nodes.len()
        invariant
            all == views(nodes@),
            i <= nodes.len(),
            groups <= i,
            groups == group_count(all.take(i as int)),
            is_tree(all),
            i > 0 ==> groups > 0,
        decreases nodes.len() - i,
    {
        assert(all.take(i + 1).drop_last() =~= all.take(i as int));
        assert(all.take(i + 1).last() == nodes@[i as int]@);
        if nodes[i].is_group {
            groups = groups + 1;
        }
        i = i + 1;
    }
    assert(all.take(i as int) =~= all);
    let n_groups: usize = groups - 1;
    let n_datasets: usize = nodes.len() - n_groups - 1;
    Tree { file_path, nodes, n_groups, n_datasets }
}

/// A child found by name is not the root, and comes before any other child with the name.
pub proof fn first_child_is_no_root(nodes: Seq<NodeView>, group: int, name: Seq<char>)
    requires
        is_tree(nodes),
        0 <= group < nodes.len(),
    ensures
        first_child_named(nodes, group, name) matches Some(c) ==> {
            &&& 0 < c
            &&& forall|i: int|
                0 < i < c && #[trigger] nodes[i].parent == group ==> nodes[i].name != name
        },
{
    let all = nodes[group].children;
    assert(children_hang_on(nodes, group));
    child_named_is_a_child(nodes, group, name);
    if let Some(c) = first_child_named(nodes, group, name) {
        first_named_is_among(nodes, all, name);
        assert forall|i: int| 0 < i < c && #[trigger] nodes[i].parent == group implies nodes[i].name
            != name by {
            assert(hangs_on_parent(nodes, i));
            let k = choose|k: int| 0 <= k < all.len() && #[trigger] all[k] == i;
            let l = choose|l: int| 0 <= l < all.len() && all[l] == c;
            assert(k < l) by {
                if l < k {
                    assert(all[l] < all[k]);
                }
            }
            if nodes[i].name == name {
                first_named_comes_first(nodes, all, name, k);
            }
        }
    }
}

/// No node of the name stands before the first one.
proof fn first_named_comes_first(nodes: Seq<NodeView>, among: Seq<usize>, name: Seq<char>, k: int)
    requires
        0 <= k < among.len(),
        nodes[among[k] as int].name == name,
        forall|i: int, j: int| 0 <= i < j < among.len() ==> among[i] < among[j],
    ensures
        first_named(nodes, among, name) matches Some(c) && c <= among[k],
    decreases among.len(),
{
    if nodes[among[0] as int].name != name {
        let rest = among.skip(1);
        assert(rest[k - 1] == among[k]);
        assert forall|i: int, j: int| 0 <= i < j < rest.len() implies rest[i] < rest[j] by {
            assert(rest[i] == among[i + 1] && rest[j] == among[j + 1]);
        }
        first_named_comes_first(nodes, rest, name, k - 1);
    } else if k > 0 {
        assert(among[0] < among[k]);
    }
}

/// The path of a node is that of its group, a slash and its name; the root's slash is not doubled.
pub proof fn paths_are_made_of_names(nodes: Seq<NodeView>, i: int)
    requires
        is_tree(nodes),
        0 < i < nodes.len(),
    ensures
        nodes[0].path == "/"@,
        nodes[nodes[i].parent].path == "/"@ ==> nodes[i].path == "/"@ + nodes[i].name,
        nodes[nodes[i].parent].path != "/"@ ==> nodes[i].path == nodes[nodes[i].parent].path + "/"@
            + nodes[i].name,
        0 <= nodes[i].parent < i,
        nodes[nodes[i].parent].is_group,
{
    assert(hangs_on_parent(nodes, i));
}

/// A node is found by its path where it is the first with it, and nothing is found by a path that
/// no node has.
pub proof fn first_node_at_path_is_found(nodes: Seq<NodeView>, path: Seq<char>, i: int)
    requires
        0 <= i <= nodes.len() <= usize::MAX,
        forall|j: int| 0 <= j < i ==> (#[trigger] nodes[j]).path != path,
        i < nodes.len() ==> nodes[i].path == path,
    ensures
        i < nodes.len() ==> node_at_path(nodes, path) == Some(i as usize),
        i == nodes.len() ==> node_at_path(nodes, path) is None,
    decreases nodes.len(),
{
    if nodes.len() > 0 {
        let init = nodes.drop_last();
        if i < nodes.len() - 1 {
            assert(init[i].path == path);
            first_node_at_path_is_found(init, path, i);
        } else {
            first_node_at_path_is_found(init, path, init.len() as int);
        }
    }
}

/// The groups of some nodes are counted one by one.
pub proof fn groups_are_counted(nodes: Seq<NodeView>)
    ensures
        Set::new(|i: int| 0 <= i < nodes.len() && nodes[i].is_group).finite(),
        group_count(nodes) == Set::new(|i: int| 0 <= i < nodes.len() && nodes[i].is_group).len(),
    decreases nodes.len(),
{
    let all = Set::new(|i: int| 0 <= i < nodes.len() && nodes[i].is_group);
    if nodes.len() == 0 {
        assert(all =~= Set::empty());
    } else {
        let n = nodes.len() - 1;
        let init = nodes.drop_last();
        groups_are_counted(init);
        let before = Set::new(|i: int| 0 <= i < init.len() && init[i].is_group);
        if nodes[n].is_group {
            assert(all =~= before.insert(n));
        } else {
            assert(all =~= before);
        }
    }
}

/// The counts of a tree are those of its groups other than the root, and of its datasets.
pub proof fn tree_counts_its_nodes(t: Tree)
    requires
        t.wf(),
    ensures
        ({
            let groups = Set::new(|i: int| 0 < i < t.nodes@.len() && t.nodes@[i].is_group);
            &&& groups.finite()
            &&& t.n_groups == groups.len()
            &&& t.n_groups + t.n_datasets + 1 == t.nodes@.len()
        }),
        forall|i: int|
            0 < i < t.nodes@.len() ==> (#[trigger] t.nodes@[i]).name_lower@ == lowercase(
                t.nodes@[i].name@,
            ),
{
    let nodes = views(t.nodes@);
    groups_are_counted(nodes);
    let all = Set::new(|i: int| 0 <= i < nodes.len() && nodes[i].is_group);
    let groups = Set::new(|i: int| 0 < i < t.nodes@.len() && t.nodes@[i].is_group);
    assert(nodes[0] == t.nodes@[0]@);
    assert(all.remove(0) =~= groups);
    assert(all.contains(0));
    assert forall|i: int| 0 < i < t.nodes@.len() implies (#[trigger] t.nodes@[i]).name_lower@
        == lowercase(t.nodes@[i].name@) by {
        assert(is_lowered(nodes, i));
    }
}

/// A member keeps its name and what is below it, and gets its name in lower case.
pub proof fn lowering_adds_lower_case(m: Member)
    ensures
        match m {
            Member::Group(name, ms) => lowered(m) matches EntryView::Group { name: n, lower, entries }
                && n == name@ && lower == lowercase(name@) && entries.len() == ms@.len() && forall|
                i: int,
            |
                0 <= i < ms@.len() ==> #[trigger] entries[i] == lowered(ms@[i]),
            Member::Dataset(name, shape, td) => lowered(m) == (EntryView::Dataset {
                name: name@,
                lower: lowercase(name@),
                shape: shape@,
                dtype: match td {
                    Some(td) => name_of_type(td),
                    None => "?"@,
                },
            }),
            Member::Other(name) => lowered(m) is Other,
        },
{
    if let Member::Group(_, ms) = m {
        lowered_all_is_each_lowered(ms@, ms@.len());
    }
}

/// The first members fill the nodes before those of the later ones.
proof fn entry_has_its_place(
    nodes: Seq<NodeView>,
    base: int,
    parent: int,
    path: Seq<char>,
    es: Seq<EntryView>,
    k: nat,
    l: nat,
)
    requires
        k < l <= es.len() <= usize::MAX,
        entries_laid_out(nodes, base, parent, path, es, l),
    ensures
        ({
            let at = base + node_counts(es, k);
            let j = display_order(es)[k as int] as int;
            &&& 0 <= j < es.len()
            &&& entry_laid_out(nodes, at, parent, path, es[j])
            &&& base <= at
            &&& at + node_count(es[j]) <= base + node_counts(es, l)
        }),
    decreases l,
{
    stable_order_exists::<String>(sort_names(es));
    if l > k + 1 {
        entry_has_its_place(nodes, base, parent, path, es, k, (l - 1) as nat);
        node_counts_grow(es, (l - 1) as nat, l);
    }
}

/// Every group and dataset among the members of a group has a node of its own, a child of the
/// group's node: with its name, its path, its shape and the name of its datatype, and a group with
/// its own members below it.
pub proof fn members_have_nodes(
    nodes: Seq<NodeView>,
    base: int,
    parent: int,
    path: Seq<char>,
    es: Seq<EntryView>,
    j: int,
) -> (at: int)
    requires
        es.len() <= usize::MAX,
        entries_laid_out(nodes, base, parent, path, es, es.len()),
        0 <= j < es.len(),
        !(es[j] is Other),
    ensures
        base <= at < base + node_counts(es, es.len()),
        nodes[at].parent == parent,
        nodes[at].path == if path == "/"@ {
            "/"@ + nodes[at].name
        } else {
            path + "/"@ + nodes[at].name
        },
        es[j] matches EntryView::Dataset { name, lower, shape, dtype } ==> {
            &&& !nodes[at].is_group
            &&& nodes[at].name == name
            &&& nodes[at].name_lower == lower
            &&& nodes[at].shape == shape
            &&& nodes[at].dtype == dtype
            &&& nodes[at].children.len() == 0
        },
        es[j] matches EntryView::Group { name, lower, entries } ==> {
            &&& nodes[at].is_group
            &&& nodes[at].name == name
            &&& nodes[at].name_lower == lower
            &&& nodes[at].shape.len() == 0
            &&& nodes[at].dtype.len() == 0
            &&& entries_laid_out(nodes, at + 1, at, nodes[at].path, entries, entries.len())
        },
{
    let names = sort_names(es);
    let order = display_order(es);
    stable_order_exists::<String>(names);
    crate::order::stable_order_is_onto::<String>(names, order, j);
    let k = choose|k: int| 0 <= k < order.len() && #[trigger] order[k] == j;
    entry_has_its_place(nodes, base, parent, path, es, k as nat, es.len());
    base + node_counts(es, k as nat)
}

/// A member whose name in lower case comes first, or came first where the names are level, is
/// shown first.
pub proof fn members_are_shown_by_name(
    nodes: Seq<NodeView>,
    base: int,
    parent: int,
    path: Seq<char>,
    es: Seq<EntryView>,
    i: int,
    j: int,
) -> (at: (int, int))
    requires
        es.len() <= usize::MAX,
        entries_laid_out(nodes, base, parent, path, es, es.len()),
        0 <= i < es.len(),
        0 <= j < es.len(),
        i != j,
        !(es[i] is Other),
        text_at_most(es[i].lower_name(), es[j].lower_name()),
        text_at_most(es[j].lower_name(), es[i].lower_name()) ==> i < j,
    ensures
        base <= at.0 < at.1,
        entry_laid_out(nodes, at.0, parent, path, es[i]),
        entry_laid_out(nodes, at.1, parent, path, es[j]),
{
    let names = sort_names(es);
    let order = display_order(es);
    stable_order_exists::<String>(names);
    crate::order::stable_order_is_onto::<String>(names, order, i);
    crate::order::stable_order_is_onto::<String>(names, order, j);
    let k = choose|k: int| 0 <= k < order.len() && #[trigger] order[k] == i;
    let l = choose|l: int| 0 <= l < order.len() && #[trigger] order[l] == j;
    if l < k {
        assert(comes_before::<String>(names, order[l] as int, order[k] as int));
        assert(false);
    }
    entry_has_its_place(nodes, base, parent, path, es, k as nat, es.len());
    entry_has_its_place(nodes, base, parent, path, es, l as nat, es.len());
    node_counts_grow(es, (k + 1) as nat, l as nat);
    assert(node_counts(es, (k + 1) as nat) == node_counts(es, k as nat) + node_count(es[i]));
    (base + node_counts(es, k as nat), base + node_counts(es, l as nat))
}

/// A group lists a member for each of its children, and no child that is none of its members.
pub proof fn children_are_members(
    nodes: Seq<NodeView>,
    base: int,
    parent: int,
    path: Seq<char>,
    es: Seq<EntryView>,
    k: nat,
    c: int,
) -> (j: int)
    requires
        0 <= base,
        k <= es.len() <= usize::MAX,
        base + node_counts(es, k) <= usize::MAX,
        entries_laid_out(nodes, base, parent, path, es, k),
        0 <= c < child_slots(base, es, k).len(),
    ensures
        0 <= j < es.len(),
        !(es[j] is Other),
        entry_laid_out(nodes, child_slots(base, es, k)[c] as int, parent, path, es[j]),
        nodes[child_slots(base, es, k)[c] as int].name_lower == es[j].lower_name(),
        nodes[child_slots(base, es, k)[c] as int].parent == parent,
    decreases k,
{
    stable_order_exists::<String>(sort_names(es));
    let before = child_slots(base, es, (k - 1) as nat);
    node_counts_grow(es, (k - 1) as nat, k);
    if c < before.len() {
        assert(child_slots(base, es, k)[c] == before[c]);
        children_are_members(nodes, base, parent, path, es, (k - 1) as nat, c)
    } else {
        display_order(es)[k - 1] as int
    }
}

/// The file of a tree shows every group and dataset of its root group.
pub proof fn file_shows_its_members(nodes: Seq<NodeView>, ms: Seq<Member>, j: int) -> (at: int)
    requires
        lays_out_file(nodes, lowered_all(ms, ms.len())),
        ms.len() <= usize::MAX,
        0 <= j < ms.len(),
        !(ms[j] is Other),
    ensures
        0 < at < nodes.len(),
        nodes[at].parent == 0,
        nodes[at].path == "/"@ + nodes[at].name,
        ms[j] matches Member::Dataset(name, shape, td) ==> {
            &&& !nodes[at].is_group
            &&& nodes[at].name == name@
            &&& nodes[at].shape == shape@
            &&& nodes[at].dtype == match td {
                Some(td) => name_of_type(td),
                None => "?"@,
            }
        },
        ms[j] matches Member::Group(name, sub) ==> {
            &&& nodes[at].is_group
            &&& nodes[at].name == name@
            &&& entries_laid_out(
                nodes,
                at + 1,
                at,
                nodes[at].path,
                lowered_all(sub@, sub@.len()),
                sub@.len(),
            )
        },
{
    let es = lowered_all(ms, ms.len());
    lowered_all_is_each_lowered(ms, ms.len());
    if let Member::Group(_, sub) = ms[j] {
        lowered_all_is_each_lowered(sub@, sub@.len());
    }
    assert(es[j] == lowered(ms[j]));
    members_have_nodes(nodes, 1, 0, "/"@, es, j)
}

/// A member that makes nodes makes one of its own and those below it; what opens as nothing makes
/// none.
pub proof fn nodes_are_groups_and_datasets(m: Member)
    ensures
        match m {
            Member::Dataset(_, _, _) => node_count(lowered(m)) == 1,
            Member::Other(_) => node_count(lowered(m)) == 0,
            Member::Group(_, ms) => node_count(lowered(m)) == 1 + node_counts(
                lowered_all(ms@, ms@.len()),
                ms@.len(),
            ),
        },
{
    if let Member::Group(_, ms) = m {
        lowered_all_is_each_lowered(ms@, ms@.len());
    }
}

/// Filling in the members of a group leaves every other node, and of the group all but its
/// children: those that it had stay in front.
pub proof fn filling_in_keeps_what_was(
    before: Seq<NodeView>,
    parent: int,
    es: Seq<EntryView>,
    after: Seq<NodeView>,
    i: int,
)
    requires
        0 <= parent < before.len(),
        fills_in(before, parent, es, after),
        0 <= i < before.len(),
    ensures
        after.len() >= before.len(),
        i != parent ==> after[i] == before[i],
        after[i].name == before[i].name,
        after[i].path == before[i].path,
        after[i].parent == before[i].parent,
        after[i].is_group == before[i].is_group,
        after[i].children.take(before[i].children.len() as int) == before[i].children,
        es.len() == 0 ==> after == before,
{
    if i == parent {
        assert(after[i].children.take(before[i].children.len() as int) =~= before[i].children);
    } else {
        assert(after[i].children.take(before[i].children.len() as int) =~= before[i].children);
    }
    if es.len() == 0 {
        assert(before[parent].children + child_slots(before.len() as int, es, 0)
            =~= before[parent].children);
        assert(after =~= before);
    }
}

/// The root of a file is the group `/`, its own parent.
pub proof fn root_is_a_slash(nodes: Seq<NodeView>, es: Seq<EntryView>)
    requires
        lays_out_file(nodes, es),
    ensures
        nodes.len() > 0,
        nodes[0].name == "/"@,
        nodes[0].name_lower == "/"@,
        nodes[0].path == "/"@,
        nodes[0].parent == 0,
        nodes[0].is_group,
        nodes[0].shape.len() == 0,
        nodes[0].dtype.len() == 0,
        es.len() == 0 ==> nodes.len() == 1 && nodes[0].children.len() == 0,
        nodes[0].children == child_slots(1, es, es.len()),
        entries_laid_out(nodes, 1, 0, "/"@, es, es.len()),
{
}

/// A group lists each node that hangs on it, and no other, in the order of the nodes.
pub proof fn groups_list_their_members(nodes: Seq<NodeView>, g: int, i: int)
    requires
        is_tree(nodes),
        0 <= g < nodes.len(),
        0 < i < nodes.len() <= usize::MAX,
    ensures
        nodes[i].parent == g <==> nodes[g].children.contains(i as usize),
        forall|k: int, l: int|
            0 <= k < l < nodes[g].children.len() ==> nodes[g].children[k] < nodes[g].children[l],
        !nodes[g].is_group ==> nodes[g].children.len() == 0,
{
    assert(hangs_on_parent(nodes, i));
    assert(children_hang_on(nodes, g));
    if nodes[i].parent == g {
        let c = nodes[g].children;
        let k = choose|k: int| 0 <= k < c.len() && #[trigger] c[k] == i;
        assert(c[k] == i as usize);
    }
}

/// Entries are looked at one by one, each with its name, its name in lower case and what it holds.
pub proof fn entries_are_viewed_one_by_one(es: Seq<Entry>, i: int)
    requires
        0 <= i < es.len(),
    ensures
        entry_views(es, es.len()).len() == es.len(),
        match es[i] {
            Entry::Group { name, lower, entries } => entry_views(es, es.len())[i] == (EntryView::Group {
                name: name@,
                lower: lower@,
                entries: entry_views(entries@, entries@.len()),
            }),
            Entry::Dataset { name, lower, shape, dtype } => entry_views(es, es.len())[i] == (
            EntryView::Dataset { name: name@, lower: lower@, shape: shape@, dtype: dtype@ }),
            Entry::Other { name, lower } => entry_views(es, es.len())[i] == (EntryView::Other {
                name: name@,
                lower: lower@,
            }),
        },
{
    entry_views_are_each_view(es, es.len());
}

} // verus!
