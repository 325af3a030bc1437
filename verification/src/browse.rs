//! Searching a tree and deciding which of its nodes are shown, and how.

use crate::order::views;
use crate::text::{
    contained_text_is_in_the_middle, contains_text, decimal, has_text, join, joined, lowercase,
    same_text, to_decimal,
};
use crate::tree::{first_child_named, hangs_on_parent, is_tree, NodeView, Tree};
use vstd::prelude::*;
use vstd::string::*;

verus! {

// ---------------------------------------------------------------------------------------------
// Matches
// ---------------------------------------------------------------------------------------------

/// The text that is searched for.
pub open spec fn needle_of(search: Seq<char>, case_sensitive: bool) -> Seq<char> {
    if case_sensitive {
        search
    } else {
        lowercase(search)
    }
}

/// Whether the name of node `i` holds the text that is searched for. The root has no name, and
/// nothing is found where nothing is searched for.
pub open spec fn is_match(
    nodes: Seq<NodeView>,
    needle: Seq<char>,
    case_sensitive: bool,
    i: int,
) -> bool {
    &&& 0 < i < nodes.len()
    &&& needle.len() > 0
    &&& contains_text(
        if case_sensitive {
            nodes[i].name
        } else {
            nodes[i].name_lower
        },
        needle,
    )
}

/// Whether node `a` is node `d` or one of the groups that hold it.
pub open spec fn is_above(nodes: Seq<NodeView>, a: int, d: int) -> bool
    decreases d,
{
    a == d || (0 < d && 0 <= nodes[d].parent < d && is_above(nodes, a, nodes[d].parent))
}

/// Whether node `i` or something below it matches.
pub open spec fn match_below(
    nodes: Seq<NodeView>,
    needle: Seq<char>,
    case_sensitive: bool,
    i: int,
) -> bool {
    exists|d: int|
        0 <= d < nodes.len() && #[trigger] is_above(nodes, i, d) && is_match(
            nodes,
            needle,
            case_sensitive,
            d,
        )
}

/// Whether node `i` or a group that holds it matches.
pub open spec fn match_above(
    nodes: Seq<NodeView>,
    needle: Seq<char>,
    case_sensitive: bool,
    i: int,
) -> bool {
    exists|a: int| #[trigger] is_above(nodes, a, i) && is_match(nodes, needle, case_sensitive, a)
}

/// How many entries are true.
pub open spec fn true_count(s: Seq<bool>) -> nat
    decreases s.len(),
{
    if s.len() == 0 {
        0
    } else {
        true_count(s.drop_last()) + if s.last() {
            1nat
        } else {
            0nat
        }
    }
}

/// A node that something matching hangs below has a child with it below.
proof fn match_below_by_child(nodes: Seq<NodeView>, i: int, d: int) -> (c: int)
    requires
        is_tree(nodes),
        0 <= i < nodes.len(),
        0 <= d < nodes.len(),
        is_above(nodes, i, d),
        i != d,
    ensures
        0 < c < nodes.len(),
        nodes[c].parent == i,
        is_above(nodes, c, d),
    decreases d,
{
    assert(hangs_on_parent(nodes, d));
    let p = nodes[d].parent;
    if p == i {
        d
    } else {
        match_below_by_child(nodes, i, p)
    }
}

/// A group that holds a node comes no later than it.
pub proof fn above_comes_first(nodes: Seq<NodeView>, a: int, d: int)
    requires
        is_above(nodes, a, d),
    ensures
        a <= d,
    decreases d,
{
    if a != d {
        above_comes_first(nodes, a, nodes[d].parent);
    }
}

/// What holds a group holds its members.
proof fn above_is_transitive(nodes: Seq<NodeView>, a: int, b: int, c: int)
    requires
        is_above(nodes, a, b),
        is_above(nodes, b, c),
    ensures
        is_above(nodes, a, c),
    decreases c,
{
    if b != c {
        above_is_transitive(nodes, a, b, nodes[c].parent);
    }
}

/// Something matches at or below a node exactly where the node matches, or something matches at
/// or below one of its children.
proof fn match_below_unfolds(
    nodes: Seq<NodeView>,
    needle: Seq<char>,
    case_sensitive: bool,
    i: int,
)
    requires
        is_tree(nodes),
        0 <= i < nodes.len(),
    ensures
        match_below(nodes, needle, case_sensitive, i) == (is_match(
            nodes,
            needle,
            case_sensitive,
            i,
        ) || exists|c: int|
            0 < c < nodes.len() && #[trigger] nodes[c].parent == i && match_below(
                nodes,
                needle,
                case_sensitive,
                c,
            )),
{
    if match_below(nodes, needle, case_sensitive, i) {
        let d = choose|d: int|
            0 <= d < nodes.len() && #[trigger] is_above(nodes, i, d) && is_match(
                nodes,
                needle,
                case_sensitive,
                d,
            );
        if d != i {
            let c = match_below_by_child(nodes, i, d);
            assert(match_below(nodes, needle, case_sensitive, c));
            assert(nodes[c].parent == i);
        }
    }
    if is_match(nodes, needle, case_sensitive, i) {
        assert(is_above(nodes, i, i));
    }
    if exists|c: int|
        0 < c < nodes.len() && #[trigger] nodes[c].parent == i && match_below(
            nodes,
            needle,
            case_sensitive,
            c,
        ) {
        let c = choose|c: int|
            0 < c < nodes.len() && #[trigger] nodes[c].parent == i && match_below(
                nodes,
                needle,
                case_sensitive,
                c,
            );
        let d = choose|d: int|
            0 <= d < nodes.len() && #[trigger] is_above(nodes, c, d) && is_match(
                nodes,
                needle,
                case_sensitive,
                d,
            );
        assert(hangs_on_parent(nodes, c));
        assert(is_above(nodes, i, i));
        assert(is_above(nodes, i, c));
        above_is_transitive(nodes, i, c, d);
    }
}

/// What a search finds in one file.
#[derive(Debug)]
pub struct Matches {
    /// For each node, whether its name matches.
    pub node_match: Vec<bool>,
    /// For each node, whether it or something below it matches.
    pub subtree_match: Vec<bool>,
    /// How many nodes match.
    pub match_count: usize,
}

impl Matches {
    /// Whether this is what a search for `needle` finds among `nodes`.
    pub open spec fn found(
        &self,
        nodes: Seq<NodeView>,
        needle: Seq<char>,
        case_sensitive: bool,
    ) -> bool {
        &&& self.node_match@.len() == nodes.len()
        &&& self.subtree_match@.len() == nodes.len()
        &&& forall|i: int|
            0 <= i < nodes.len() ==> #[trigger] self.node_match@[i] == is_match(
                nodes,
                needle,
                case_sensitive,
                i,
            )
        &&& forall|i: int|
            0 <= i < nodes.len() ==> #[trigger] self.subtree_match@[i] == match_below(
                nodes,
                needle,
                case_sensitive,
                i,
            )
        &&& self.match_count == true_count(self.node_match@)
    }
}

/// Every node whose name matches, and every group on the way to one.
pub fn find_matches(tree: &Tree, needle: &str, case_sensitive: bool) -> (m: Matches)
    requires
        tree.wf(),
    ensures
        m.found(views(tree.nodes@), needle@, case_sensitive),
{
    let ghost nodes = views(tree.nodes@);
    let ghost nd = needle@;
    let n: usize = tree.nodes.len();
    let empty = needle.is_empty();
    let mut node_match: Vec<bool> = Vec::new();
    let mut match_count: usize = 0;
    let mut i: usize = 0;
    while i < n
        invariant
            n == tree.nodes.len(),
            nodes == views(tree.nodes@),
            nd == needle@,
            empty == (nd.len() == 0),
            i <= n,
            node_match.len() == i,
            forall|j: int|
                0 <= j < i ==> #[trigger] node_match@[j] == is_match(nodes, nd, case_sensitive, j),
            match_count == true_count(node_match@),
            match_count <= i,
        decreases n - i,
    {
        let node = &tree.nodes[i];
        assert(nodes[i as int] == node@);
        let hit = if i == 0 || empty {
            false
        } else if case_sensitive {
            has_text(node.name.as_str(), needle)
        } else {
            has_text(node.name_lower.as_str(), needle)
        };
        let ghost before = node_match@;
        node_match.push(hit);
        assert(node_match@.drop_last() =~= before);
        if hit {
            match_count = match_count + 1;
        }
        i = i + 1;
    }
    let mut subtree_match: Vec<bool> = Vec::new();
    let mut k: usize = 0;
    while k < n
        invariant
            n == node_match.len(),
            k <= n,
            subtree_match@ == node_match@.take(k as int),
        decreases n - k,
    {
        subtree_match.push(node_match[k]);
        assert(node_match@.take(k + 1) =~= node_match@.take(k as int).push(node_match@[k as int]));
        k = k + 1;
    }
    // Children always have larger indices than their parent, so one reverse pass propagates
    // matches up to the root.
    let mut at: usize = n;
    proof {
        assert forall|j: int| 0 <= j < n implies #[trigger] subtree_match@[j] == (is_match(
            nodes,
            nd,
            case_sensitive,
            j,
        ) || child_matches_from(nodes, nd, case_sensitive, j, n as int)) by {
            assert(subtree_match@[j] == node_match@[j]);
        }
    }
    while at > 1
        invariant
            n == tree.nodes.len(),
            nodes == views(tree.nodes@),
            is_tree(nodes),
            nodes.len() == n,
            0 <= at <= n,
            subtree_match.len() == n,
            forall|j: int|
                0 <= j < n ==> #[trigger] subtree_match@[j] == (is_match(
                    nodes,
                    nd,
                    case_sensitive,
                    j,
                ) || child_matches_from(nodes, nd, case_sensitive, j, at as int)),
        decreases at,
    {
        let i: usize = at - 1;
        let ghost before = subtree_match@;
        proof {
            assert(hangs_on_parent(nodes, i as int));
            match_below_unfolds(nodes, nd, case_sensitive, i as int);
            if match_below(nodes, nd, case_sensitive, i as int) && !is_match(
                nodes,
                nd,
                case_sensitive,
                i as int,
            ) {
                let c = choose|c: int|
                    0 < c < nodes.len() && #[trigger] nodes[c].parent == i && match_below(
                        nodes,
                        nd,
                        case_sensitive,
                        c,
                    );
                assert(hangs_on_parent(nodes, c));
                assert(child_matches_from(nodes, nd, case_sensitive, i as int, at as int));
            }
            assert(before[i as int] == match_below(nodes, nd, case_sensitive, i as int));
        }
        if subtree_match[i] {
            let p: usize = tree.nodes[i].parent;
            assert(nodes[i as int].parent == p);
            subtree_match.set(p, true);
        }
        proof {
            let p = nodes[i as int].parent;
            assert forall|j: int| 0 <= j < n implies #[trigger] subtree_match@[j] == (is_match(
                nodes,
                nd,
                case_sensitive,
                j,
            ) || child_matches_from(nodes, nd, case_sensitive, j, i as int)) by {
                assert(before[j] == (is_match(nodes, nd, case_sensitive, j) || child_matches_from(
                    nodes,
                    nd,
                    case_sensitive,
                    j,
                    at as int,
                )));
                child_matches_step(nodes, nd, case_sensitive, j, i as int);
            }
        }
        at = i;
    }
    proof {
        assert forall|j: int| 0 <= j < nodes.len() implies #[trigger] subtree_match@[j]
            == match_below(nodes, nd, case_sensitive, j) by {
            match_below_unfolds(nodes, nd, case_sensitive, j);
            assert(subtree_match@[j] == (is_match(nodes, nd, case_sensitive, j)
                || child_matches_from(nodes, nd, case_sensitive, j, at as int)));
        }
    }
    Matches { node_match, subtree_match, match_count }
}

/// Whether something matches at or below a child of node `i` with index at least `from`.
spec fn child_matches_from(
    nodes: Seq<NodeView>,
    needle: Seq<char>,
    case_sensitive: bool,
    i: int,
    from: int,
) -> bool {
    exists|c: int|
        0 < c < nodes.len() && from <= c && #[trigger] nodes[c].parent == i && match_below(
            nodes,
            needle,
            case_sensitive,
            c,
        )
}

proof fn child_matches_step(
    nodes: Seq<NodeView>,
    needle: Seq<char>,
    case_sensitive: bool,
    i: int,
    from: int,
)
    requires
        0 < from < nodes.len(),
    ensures
        child_matches_from(nodes, needle, case_sensitive, i, from) == (child_matches_from(
            nodes,
            needle,
            case_sensitive,
            i,
            from + 1,
        ) || (nodes[from].parent == i && match_below(nodes, needle, case_sensitive, from))),
{
    if child_matches_from(nodes, needle, case_sensitive, i, from) {
        let c = choose|c: int|
            0 < c < nodes.len() && from <= c && #[trigger] nodes[c].parent == i && match_below(
                nodes,
                needle,
                case_sensitive,
                c,
            );
        if c != from {
            assert(from + 1 <= c);
        }
    }
    if child_matches_from(nodes, needle, case_sensitive, i, from + 1) {
        let c = choose|c: int|
            0 < c < nodes.len() && from + 1 <= c && #[trigger] nodes[c].parent == i && match_below(
                nodes,
                needle,
                case_sensitive,
                c,
            );
        assert(from <= c);
    }
}

// ---------------------------------------------------------------------------------------------
// Rows
// ---------------------------------------------------------------------------------------------

/// How many elements an array of this shape has.
pub open spec fn element_count(shape: Seq<usize>) -> nat
    decreases shape.len(),
{
    if shape.len() == 0 {
        1
    } else {
        element_count(shape.drop_last()) * shape.last() as nat
    }
}

/// The sizes of an array as texts.
pub open spec fn size_texts(shape: Seq<usize>) -> Seq<Seq<char>> {
    Seq::new(shape.len(), |i: int| decimal(shape[i] as nat))
}

/// The shape shown beside a dataset: none for a single element.
pub open spec fn dims_text(shape: Seq<usize>) -> Seq<char> {
    if shape.len() == 0 || element_count(shape) <= 1 {
        Seq::empty()
    } else {
        "  ["@ + joined(size_texts(shape), "×"@) + "]"@
    }
}

/// Whether an array of this shape has at most one element.
fn at_most_one(shape: &Vec<usize>) -> (r: bool)
    ensures
        r == (element_count(shape@) <= 1),
{
    let mut zero = false;
    let mut large = false;
    let mut i: usize = 0;
    while i < shape.len()
        invariant
            i <= shape.len(),
            zero == (element_count(shape@.take(i as int)) == 0),
            !zero ==> large == (element_count(shape@.take(i as int)) > 1),
        decreases shape.len() - i,
    {
        let ghost before = element_count(shape@.take(i as int));
        let d: usize = shape[i];
        proof {
            assert(shape@.take(i + 1).drop_last() =~= shape@.take(i as int));
            assert(before * d as nat == 0 <==> before == 0 || d == 0) by (nonlinear_arith);
            assert(before >= 1 && d >= 1 ==> (before * d as nat > 1 <==> before > 1 || d > 1))
                by (nonlinear_arith);
        }
        if d == 0 {
            zero = true;
        } else if d > 1 {
            large = true;
        }
        i = i + 1;
    }
    assert(shape@.take(i as int) =~= shape@);
    zero || !large
}

/// The shape shown beside a dataset: none for a single element.
pub fn shape_label(shape: &Vec<usize>) -> (s: String)
    ensures
        s@ == dims_text(shape@),
{
    if shape.len() == 0 || at_most_one(shape) {
        return String::new();
    }
    let mut texts: Vec<String> = Vec::new();
    let mut i: usize = 0;
    while i < shape.len()
        invariant
            i <= shape.len(),
            texts.len() == i,
            forall|j: int| 0 <= j < i ==> (#[trigger] texts@[j])@ == decimal(shape@[j] as nat),
        decreases shape.len() - i,
    {
        texts.push(to_decimal(shape[i] as u64));
        i = i + 1;
    }
    assert(views(texts@) =~= size_texts(shape@));
    let mut s = "  [".to_owned();
    s.append(join(&texts, "×").as_str());
    s.append("]");
    s
}

/// How a node is shown.
#[derive(Debug)]
pub struct Row {
    /// The name, for a dataset with its shape and the mark of the second selection.
    pub text: String,
    /// Whether the name is highlighted as a match.
    pub matched: bool,
    /// Whether the dataset is the selected one.
    pub selected: bool,
    /// Whether the dataset is the second one of a comparison.
    pub second: bool,
    /// Whether the group starts open.
    pub default_open: bool,
    /// Whether the group is held open.
    pub forced_open: bool,
    /// Whether what the group holds lies in a group that matches.
    pub inside_match: bool,
}

/// Whether a node is shown: without a search all are; else those that match, hold a match, or
/// lie in a group that matches.
pub open spec fn passes(filter: bool, ancestor_matched: bool, subtree_match: bool) -> bool {
    !filter || ancestor_matched || subtree_match
}

/// The text of a dataset's row.
pub open spec fn dataset_label(n: NodeView, second: bool) -> Seq<char> {
    n.name + dims_text(n.shape) + if second {
        "  [2]"@
    } else {
        Seq::empty()
    }
}

/// How node `idx` of file `file` is shown, if it is: `ancestor_matched` says whether a group
/// that holds it matches the search.
pub fn show_node(
    tree: &Tree,
    file: usize,
    idx: usize,
    filter: bool,
    ancestor_matched: bool,
    node_match: &Vec<bool>,
    subtree_match: &Vec<bool>,
    selected: Option<(usize, usize)>,
    second: Option<(usize, usize)>,
) -> (r: Option<Row>)
    requires
        idx < tree.nodes@.len(),
        filter ==> idx < node_match@.len() && idx < subtree_match@.len(),
    ensures
        r is Some == passes(filter, ancestor_matched, filter && subtree_match@[idx as int]),
        r matches Some(row) ==> {
            let n = tree.nodes@[idx as int]@;
            &&& row.matched == (filter && node_match@[idx as int])
            &&& row.selected == (!n.is_group && selected == Some((file, idx)))
            &&& row.second == (!n.is_group && second == Some((file, idx)))
            &&& row.default_open == (n.is_group && n.path == "/entry"@)
            &&& row.forced_open == (n.is_group && filter)
            &&& row.inside_match == (ancestor_matched || row.matched)
            &&& row.text@ == if n.is_group {
                n.name
            } else {
                dataset_label(n, row.second)
            }
        },
{
    if filter && !ancestor_matched && !subtree_match[idx] {
        return None;
    }
    let node = &tree.nodes[idx];
    let matched = filter && node_match[idx];
    if node.is_group {
        Some(
            Row {
                text: node.name.clone(),
                matched,
                selected: false,
                second: false,
                default_open: same_text(node.path.as_str(), "/entry"),
                forced_open: filter,
                inside_match: ancestor_matched || matched,
            },
        )
    } else {
        let is_selected = is_selection(selected, file, idx);
        let is_second = is_selection(second, file, idx);
        let mut text = node.name.clone();
        text.append(shape_label(&node.shape).as_str());
        if is_second {
            text.append("  [2]");
        }
        assert(!is_second ==> text@ =~= dataset_label(node@, false));
        Some(
            Row {
                text,
                matched,
                selected: is_selected,
                second: is_second,
                default_open: false,
                forced_open: false,
                inside_match: ancestor_matched || matched,
            },
        )
    }
}

/// Whether a selection is this node of this file.
pub fn is_selection(sel: Option<(usize, usize)>, file: usize, idx: usize) -> (r: bool)
    ensures
        r == (sel == Some((file, idx))),
{
    match sel {
        Some((f, i)) => f == file && i == idx,
        None => false,
    }
}

/// Whether a node is reached when the rows are drawn from the root down: its group is reached,
/// and it passes the filter.
pub open spec fn is_drawn(
    nodes: Seq<NodeView>,
    needle: Seq<char>,
    case_sensitive: bool,
    filter: bool,
    i: int,
) -> bool
    decreases i,
{
    &&& 0 < i < nodes.len()
    &&& 0 <= nodes[i].parent < i
    &&& nodes[i].parent == 0 || is_drawn(nodes, needle, case_sensitive, filter, nodes[i].parent)
    &&& passes(
        filter,
        filter && match_above(nodes, needle, case_sensitive, nodes[i].parent),
        filter && match_below(nodes, needle, case_sensitive, i),
    )
}

/// What is handed down when the rows are drawn says whether a group on the way matches: nothing
/// does at the root, and below it the node itself or what was handed down to it.
pub proof fn match_above_is_handed_down(
    nodes: Seq<NodeView>,
    needle: Seq<char>,
    case_sensitive: bool,
    i: int,
)
    requires
        is_tree(nodes),
        0 <= i < nodes.len(),
    ensures
        match_above(nodes, needle, case_sensitive, i) == (i > 0 && (is_match(
            nodes,
            needle,
            case_sensitive,
            i,
        ) || match_above(nodes, needle, case_sensitive, nodes[i].parent))),
{
    if i > 0 {
        assert(hangs_on_parent(nodes, i));
    }
    assert(is_above(nodes, i, i));
    if match_above(nodes, needle, case_sensitive, i) {
        let a = choose|a: int| #[trigger]
            is_above(nodes, a, i) && is_match(nodes, needle, case_sensitive, a);
        above_comes_first(nodes, a, i);
        if a != i {
            assert(is_above(nodes, a, nodes[i].parent));
        }
    }
    if i > 0 && match_above(nodes, needle, case_sensitive, nodes[i].parent) {
        let a = choose|a: int| #[trigger]
            is_above(nodes, a, nodes[i].parent) && is_match(nodes, needle, case_sensitive, a);
        assert(is_above(nodes, a, i));
    }
}

/// A search narrows the tree down to the nodes that match, the groups on the way to them, and
/// what lies in a group that matches; without a search every node is drawn.
pub proof fn search_narrows_tree(
    nodes: Seq<NodeView>,
    needle: Seq<char>,
    case_sensitive: bool,
    filter: bool,
    i: int,
)
    requires
        is_tree(nodes),
        0 < i < nodes.len(),
    ensures
        is_drawn(nodes, needle, case_sensitive, filter, i) == (!filter || match_above(
            nodes,
            needle,
            case_sensitive,
            i,
        ) || match_below(nodes, needle, case_sensitive, i)),
    decreases i,
{
    assert(hangs_on_parent(nodes, i));
    let p = nodes[i].parent;
    if p > 0 {
        search_narrows_tree(nodes, needle, case_sensitive, filter, p);
    }
    assert(is_above(nodes, i, i));
    assert(is_above(nodes, p, p));
    assert(is_above(nodes, p, i));
    if match_above(nodes, needle, case_sensitive, p) {
        let a = choose|a: int| #[trigger]
            is_above(nodes, a, p) && is_match(nodes, needle, case_sensitive, a);
        assert(is_above(nodes, a, i));
    }
    if match_above(nodes, needle, case_sensitive, i) {
        let a = choose|a: int| #[trigger]
            is_above(nodes, a, i) && is_match(nodes, needle, case_sensitive, a);
        if a == i {
            assert(match_below(nodes, needle, case_sensitive, i));
        } else {
            assert(is_above(nodes, a, p));
        }
    }
    if match_below(nodes, needle, case_sensitive, i) {
        let d = choose|d: int|
            0 <= d < nodes.len() && #[trigger] is_above(nodes, i, d) && is_match(
                nodes,
                needle,
                case_sensitive,
                d,
            );
        above_is_transitive(nodes, p, i, d);
        assert(match_below(nodes, needle, case_sensitive, p));
    }
}

/// The dataset that a click on a node selects: a dataset itself, and for a group its `value`
/// dataset, where it has one (typical for DASlogs PVs).
pub fn click_target(tree: &Tree, idx: usize) -> (r: Option<usize>)
    requires
        tree.wf(),
        idx < tree.nodes@.len(),
    ensures
        r == if tree.nodes@[idx as int].is_group {
            first_child_named(views(tree.nodes@), idx as int, "value"@)
        } else {
            Some(idx)
        },
        r is Some ==> r->0 < tree.nodes@.len(),
{
    if tree.nodes[idx].is_group {
        tree.child_named(idx, "value")
    } else {
        Some(idx)
    }
}

// ---------------------------------------------------------------------------------------------
// Laws
// ---------------------------------------------------------------------------------------------

/// A search finds a node exactly where its name, or without regard to case its name in lower case,
/// is something, the text searched for, and something. The root is never found, and nothing is
/// where nothing is searched for.
pub proof fn names_that_hold_the_text_match(
    m: Matches,
    nodes: Seq<NodeView>,
    needle: Seq<char>,
    case_sensitive: bool,
    i: int,
)
    requires
        m.found(nodes, needle, case_sensitive),
        0 < i < nodes.len(),
        needle.len() > 0,
    ensures
        m.node_match@.len() == nodes.len(),
        case_sensitive ==> (m.node_match@[i] <==> exists|a: Seq<char>, b: Seq<char>|
            nodes[i].name == #[trigger] (a + needle + b)),
        !case_sensitive ==> (m.node_match@[i] <==> exists|a: Seq<char>, b: Seq<char>|
            nodes[i].name_lower == #[trigger] (a + needle + b)),
        !m.node_match@[0],
{
    contained_text_is_in_the_middle(nodes[i].name, needle);
    contained_text_is_in_the_middle(nodes[i].name_lower, needle);
    assert(m.node_match@[i] == is_match(nodes, needle, case_sensitive, i));
    assert(m.node_match@[0] == is_match(nodes, needle, case_sensitive, 0));
}

/// Nothing is found where nothing is searched for.
pub proof fn empty_search_finds_nothing(
    m: Matches,
    nodes: Seq<NodeView>,
    case_sensitive: bool,
    i: int,
)
    requires
        m.found(nodes, Seq::empty(), case_sensitive),
        0 <= i < nodes.len(),
    ensures
        !m.node_match@[i],
        !m.subtree_match@[i],
        m.match_count == 0,
{
    assert(m.node_match@[i] == is_match(nodes, Seq::empty(), case_sensitive, i));
    assert(m.subtree_match@[i] == match_below(nodes, Seq::empty(), case_sensitive, i));
    matches_are_counted(m.node_match@);
    assert(Set::new(|k: int| 0 <= k < m.node_match@.len() && m.node_match@[k])
        =~= Set::empty()) by {
        assert forall|k: int| 0 <= k < m.node_match@.len() implies !m.node_match@[k] by {
            assert(m.node_match@[k] == is_match(nodes, Seq::empty(), case_sensitive, k));
        }
    }
}

/// The matches are counted one by one.
pub proof fn matches_are_counted(s: Seq<bool>)
    ensures
        Set::new(|i: int| 0 <= i < s.len() && s[i]).finite(),
        true_count(s) == Set::new(|i: int| 0 <= i < s.len() && s[i]).len(),
    decreases s.len(),
{
    let all = Set::new(|i: int| 0 <= i < s.len() && s[i]);
    if s.len() == 0 {
        assert(all =~= Set::empty());
    } else {
        let n = s.len() - 1;
        let init = s.drop_last();
        matches_are_counted(init);
        let before = Set::new(|i: int| 0 <= i < init.len() && init[i]);
        if s[n] {
            assert(all =~= before.insert(n));
        } else {
            assert(all =~= before);
        }
    }
}

/// The number of matches is how many nodes match.
pub proof fn match_count_is_of_the_matches(
    m: Matches,
    nodes: Seq<NodeView>,
    needle: Seq<char>,
    case_sensitive: bool,
)
    requires
        m.found(nodes, needle, case_sensitive),
    ensures
        m.match_count == Set::new(|i: int| 0 <= i < nodes.len() && m.node_match@[i]).len(),
{
    matches_are_counted(m.node_match@);
    assert(Set::new(|i: int| 0 <= i < nodes.len() && m.node_match@[i]) =~= Set::new(
        |i: int| 0 <= i < m.node_match@.len() && m.node_match@[i],
    ));
}

/// A node leads to a match exactly where it matches, or one of its children leads to one.
pub proof fn matches_are_handed_up(
    m: Matches,
    nodes: Seq<NodeView>,
    needle: Seq<char>,
    case_sensitive: bool,
    i: int,
)
    requires
        is_tree(nodes),
        m.found(nodes, needle, case_sensitive),
        0 <= i < nodes.len(),
    ensures
        m.subtree_match@[i] <==> m.node_match@[i] || exists|c: int|
            0 < c < nodes.len() && #[trigger] nodes[c].parent == i && m.subtree_match@[c],
{
    match_below_unfolds(nodes, needle, case_sensitive, i);
    assert(m.node_match@[i] == is_match(nodes, needle, case_sensitive, i));
    assert(m.subtree_match@[i] == match_below(nodes, needle, case_sensitive, i));
    if exists|c: int|
        0 < c < nodes.len() && #[trigger] nodes[c].parent == i && match_below(
            nodes,
            needle,
            case_sensitive,
            c,
        ) {
        let c = choose|c: int|
            0 < c < nodes.len() && #[trigger] nodes[c].parent == i && match_below(
                nodes,
                needle,
                case_sensitive,
                c,
            );
        assert(m.subtree_match@[c]);
    }
    if exists|c: int| 0 < c < nodes.len() && #[trigger] nodes[c].parent == i && m.subtree_match@[c] {
        let c = choose|c: int|
            0 < c < nodes.len() && #[trigger] nodes[c].parent == i && m.subtree_match@[c];
        assert(match_below(nodes, needle, case_sensitive, c));
    }
}

/// A group holds its children and what they hold; the root holds everything, and nothing but the
/// root holds the root.
pub proof fn groups_hold_what_is_below(nodes: Seq<NodeView>, a: int, d: int)
    requires
        is_tree(nodes),
        0 <= a < nodes.len(),
        0 <= d < nodes.len(),
    ensures
        is_above(nodes, d, d),
        is_above(nodes, 0, d),
        d > 0 ==> is_above(nodes, nodes[d].parent, d),
        a != d ==> (is_above(nodes, a, d) <==> d > 0 && is_above(nodes, a, nodes[d].parent)),
    decreases d,
{
    if d > 0 {
        assert(hangs_on_parent(nodes, d));
        groups_hold_what_is_below(nodes, a, nodes[d].parent);
    }
}

/// The path of what a group holds begins with the group's path and a slash.
pub proof fn paths_below_begin_alike(nodes: Seq<NodeView>, a: int, d: int)
    requires
        is_tree(nodes),
        0 < a < nodes.len(),
        0 <= d < nodes.len(),
        is_above(nodes, a, d),
        a != d,
        forall|i: int| 0 < i < nodes.len() ==> (#[trigger] nodes[i]).path != "/"@,
    ensures
        exists|rest: Seq<char>| nodes[d].path == #[trigger] (nodes[a].path + "/"@ + rest),
    decreases d,
{
    assert(hangs_on_parent(nodes, d));
    let p = nodes[d].parent;
    above_comes_first(nodes, a, p);
    assert(nodes[p].path != "/"@);
    if p == a {
        assert(nodes[d].path == nodes[a].path + "/"@ + nodes[d].name);
    } else {
        paths_below_begin_alike(nodes, a, p);
        let rest = choose|rest: Seq<char>| nodes[p].path == #[trigger] (nodes[a].path + "/"@ + rest);
        let more = rest + "/"@ + nodes[d].name;
        assert(nodes[d].path =~= nodes[a].path + "/"@ + more);
    }
}

/// A search shows each node that matches, every group on the way to it, and all that it holds;
/// whatever is shown is one of these. Without a search everything is shown.
pub proof fn search_shows_ways_to_matches(
    m: Matches,
    nodes: Seq<NodeView>,
    needle: Seq<char>,
    case_sensitive: bool,
    i: int,
)
    requires
        is_tree(nodes),
        m.found(nodes, needle, case_sensitive),
        0 < i < nodes.len(),
    ensures
        is_drawn(nodes, needle, case_sensitive, false, i),
        is_drawn(nodes, needle, case_sensitive, true, i) <==> exists|d: int|
            0 < d < nodes.len() && m.node_match@[d] && (#[trigger] is_above(nodes, i, d) || is_above(
                nodes,
                d,
                i,
            )),
{
    search_narrows_tree(nodes, needle, case_sensitive, false, i);
    search_narrows_tree(nodes, needle, case_sensitive, true, i);
    assert forall|d: int| 0 <= d < nodes.len() implies #[trigger] m.node_match@[d] == is_match(
        nodes,
        needle,
        case_sensitive,
        d,
    ) by {}
    if match_above(nodes, needle, case_sensitive, i) {
        let a = choose|a: int| #[trigger]
            is_above(nodes, a, i) && is_match(nodes, needle, case_sensitive, a);
        assert(m.node_match@[a]);
        assert(is_above(nodes, i, a) || is_above(nodes, a, i));
    }
    if match_below(nodes, needle, case_sensitive, i) {
        let d = choose|d: int|
            0 <= d < nodes.len() && #[trigger] is_above(nodes, i, d) && is_match(
                nodes,
                needle,
                case_sensitive,
                d,
            );
        assert(m.node_match@[d]);
        assert(is_above(nodes, i, d) || is_above(nodes, d, i));
    }
    if exists|d: int|
        0 < d < nodes.len() && m.node_match@[d] && (#[trigger] is_above(nodes, i, d) || is_above(
            nodes,
            d,
            i,
        )) {
        let d = choose|d: int|
            0 < d < nodes.len() && m.node_match@[d] && (#[trigger] is_above(nodes, i, d) || is_above(
                nodes,
                d,
                i,
            ));
        assert(is_match(nodes, needle, case_sensitive, d));
    }
}

/// Without a search every node passes; with one those that lead to a match or lie in one.
pub proof fn nodes_pass_by_search(filter: bool, ancestor_matched: bool, subtree_match: bool)
    ensures
        !filter ==> passes(filter, ancestor_matched, subtree_match),
        filter ==> passes(filter, ancestor_matched, subtree_match) == (ancestor_matched
            || subtree_match),
{
}

/// With regard to case the text is searched for as it is, without in lower case.
pub proof fn case_is_kept_or_lowered(search: Seq<char>)
    ensures
        needle_of(search, true) == search,
        needle_of(search, false) == lowercase(search),
{
}

/// An array has no elements where a dimension has no length, one where all have length one, and
/// else more.
pub proof fn elements_multiply(shape: Seq<usize>)
    ensures
        element_count(shape) == 0 <==> exists|i: int| 0 <= i < shape.len() && #[trigger] shape[i] == 0,
        element_count(shape) == 1 <==> forall|i: int| 0 <= i < shape.len() ==> #[trigger] shape[i] == 1,
    decreases shape.len(),
{
    if shape.len() > 0 {
        let init = shape.drop_last();
        elements_multiply(init);
        let n = shape.len() - 1;
        let c = element_count(init) as int;
        let d = shape.last() as int;
        assert(c * d == 0 <==> c == 0 || d == 0) by (nonlinear_arith)
            requires
                c >= 0,
                d >= 0,
        ;
        assert(c * d == 1 <==> c == 1 && d == 1) by (nonlinear_arith)
            requires
                c >= 0,
                d >= 0,
        ;
        if c == 0 {
            let i = choose|i: int| 0 <= i < init.len() && #[trigger] init[i] == 0;
            assert(shape[i] == 0);
        }
        if d == 0 {
            assert(shape[n] == 0);
        }
        if exists|i: int| 0 <= i < shape.len() && #[trigger] shape[i] == 0 {
            let i = choose|i: int| 0 <= i < shape.len() && #[trigger] shape[i] == 0;
            if i < n {
                assert(init[i] == 0);
            }
        }
        if c == 1 && d == 1 {
            assert forall|i: int| 0 <= i < shape.len() implies #[trigger] shape[i] == 1 by {
                if i < n {
                    assert(init[i] == 1);
                }
            }
        }
        if forall|i: int| 0 <= i < shape.len() ==> #[trigger] shape[i] == 1 {
            assert forall|i: int| 0 <= i < init.len() implies #[trigger] init[i] == 1 by {
                assert(shape[i] == 1);
            }
            assert(shape[n] == 1);
        }
    }
}

/// The shape is shown beside a dataset exactly where it has more than one element: its sizes
/// between square brackets, with a cross between them.
pub proof fn shapes_are_shown_for_arrays(shape: Seq<usize>)
    ensures
        (exists|i: int| 0 <= i < shape.len() && #[trigger] shape[i] == 0) || (forall|i: int|
            0 <= i < shape.len() ==> #[trigger] shape[i] == 1) ==> dims_text(shape).len() == 0,
        !(exists|i: int| 0 <= i < shape.len() && #[trigger] shape[i] == 0) && !(forall|i: int|
            0 <= i < shape.len() ==> #[trigger] shape[i] == 1) ==> dims_text(shape) == "  ["@ + joined(
            Seq::new(shape.len(), |i: int| decimal(shape[i] as nat)),
            "×"@,
        ) + "]"@,
{
    elements_multiply(shape);
    assert(size_texts(shape) =~= Seq::new(shape.len(), |i: int| decimal(shape[i] as nat)));
}

/// A dataset's row begins with its name, and only the second selection is marked.
pub proof fn rows_begin_with_names(n: NodeView, second: bool)
    ensures
        exists|rest: Seq<char>| dataset_label(n, second) == #[trigger] (n.name + rest),
        dataset_label(n, true) == dataset_label(n, false) + "  [2]"@,
        n.shape.len() == 0 ==> dataset_label(n, false) == n.name,
{
    let tail = if second {
        "  [2]"@
    } else {
        Seq::empty()
    };
    assert(dataset_label(n, second) =~= n.name + (dims_text(n.shape) + tail));
    assert(dataset_label(n, true) =~= dataset_label(n, false) + "  [2]"@);
    if n.shape.len() == 0 {
        assert(dataset_label(n, false) =~= n.name);
    }
}

} // verus!
