//! A dataset that was selected, with everything derived from it, and the pairing of two of them.

use crate::datatype::{bracket, bracketed, message, Value, ValueView};
use crate::number::Real;
use crate::order::views;
use crate::series::{
    can_interpolate, capped, capping_takes_every_nth, compute_stats, decimate,
    extremes_bound_the_data, interp_onto, is_greatest, is_interpolable, is_least, kept,
    pick_is_within, picks, picks_are_within, stride_cap, values_are_taken_between_neighbours, Pick,
    Stats,
};
use crate::text::{
    decimal, join, joined, joining_puts_separators_between, same_text, to_decimal, truncate,
    truncated,
};
use crate::tree::{
    child_named_is_a_child, children_hang_on, first_child_is_no_root, first_child_named,
    hangs_on_parent, is_tree, NodeView, Tree,
};
use vstd::prelude::*;
use vstd::string::*;

verus! {

/// A dataset selection: (open-file index, node index in that file's tree).
pub type Sel = (usize, usize);

/// What was read of the `time` dataset beside a selected one.
#[derive(Debug)]
pub struct TimeSeries {
    pub value: Value,
    pub attrs: Vec<(String, String)>,
}

/// What was read of a selected dataset.
#[derive(Debug)]
pub struct NodeRead {
    pub attrs: Vec<(String, String)>,
    /// The value; none where the node does not open as a dataset.
    pub value: Option<Value>,
    /// The `time` dataset beside it, where that was asked for and opens.
    pub time: Option<TimeSeries>,
    /// The mean of the numbers of the value.
    pub mean: Real,
}

/// Everything derived from a selected dataset.
#[derive(Debug)]
pub struct Loaded {
    pub file: usize,
    pub node: usize,
    pub value: Value,
    pub attrs: Vec<(String, String)>,
    /// Name used in plot labels: the PV (group) name for a `value` dataset.
    pub label: String,
    pub units: Option<String>,
    /// Full-resolution 1-D numeric data (empty when not plottable).
    pub y: Vec<Real>,
    /// Full-resolution sibling `time` axis, when one exists.
    pub x: Option<Vec<Real>>,
    /// The positions of `y` that are plotted.
    pub points: Vec<usize>,
    pub x_label: String,
    pub stats: Option<Stats>,
}

/// The characters of an optional text.
pub open spec fn opt_text(s: Option<String>) -> Option<Seq<char>> {
    match s {
        Some(s) => Some(s@),
        None => None,
    }
}

/// The value of the first attribute with this name.
pub open spec fn attr_value(attrs: Seq<(Seq<char>, Seq<char>)>, name: Seq<char>) -> Option<
    Seq<char>,
>
    decreases attrs.len(),
{
    if attrs.len() == 0 {
        None
    } else if attrs[0].0 == name {
        Some(attrs[0].1)
    } else {
        attr_value(attrs.skip(1), name)
    }
}

/// The value of the first attribute with this name.
pub fn find_attr(attrs: &Vec<(String, String)>, name: &str) -> (r: Option<String>)
    ensures
        opt_text(r) == attr_value(views(attrs@), name@),
{
    let ghost all = views(attrs@);
    let mut i: usize = 0;
    assert(all.skip(0) =~= all);
    while i < attrs.len()
        invariant
            i <= attrs.len(),
            all == views(attrs@),
            attr_value(all, name@) == attr_value(all.skip(i as int), name@),
        decreases attrs.len() - i,
    {
        assert(all.skip(i as int)[0] == attrs@[i as int]@);
        assert(all.skip(i as int).skip(1) =~= all.skip(i + 1));
        if same_text(attrs[i].0.as_str(), name) {
            return Some(attrs[i].1.clone());
        }
        i = i + 1;
    }
    None
}

// ---------------------------------------------------------------------------------------------
// Loading
// ---------------------------------------------------------------------------------------------

/// The name a dataset goes by: for DASlogs PVs the interesting name is the group, not `value`.
pub open spec fn pv_name(nodes: Seq<NodeView>, idx: int) -> Seq<char> {
    if nodes[idx].name == "value"@ {
        nodes[nodes[idx].parent].name
    } else {
        nodes[idx].name
    }
}

/// The units of a dataset, where its attribute says any.
pub open spec fn units_of(attrs: Seq<(Seq<char>, Seq<char>)>) -> Option<Seq<char>> {
    match attr_value(attrs, "units"@) {
        Some(u) => if u.len() > 0 {
            Some(u)
        } else {
            None
        },
        None => None,
    }
}

/// How many dimensions of a shape are longer than one.
pub open spec fn long_dims(shape: Seq<usize>) -> nat
    decreases shape.len(),
{
    if shape.len() == 0 {
        0
    } else {
        long_dims(shape.drop_last()) + if shape.last() > 1 {
            1nat
        } else {
            0nat
        }
    }
}

/// The numbers of a value that can be plotted: more than one, along a single dimension.
pub open spec fn plot_data(v: ValueView) -> Seq<Real> {
    match v {
        ValueView::Numeric { data, shape } => if data.len() > 1 && long_dims(shape) <= 1 {
            data
        } else {
            Seq::empty()
        },
        _ => Seq::empty(),
    }
}

/// The dataset that gives the time axis of a plotted one: its sibling `time`.
pub open spec fn time_node(nodes: Seq<NodeView>, idx: int, v: ValueView) -> Option<usize> {
    if plot_data(v).len() > 0 && nodes[idx].name != "time"@ {
        first_child_named(nodes, nodes[idx].parent, "time"@)
    } else {
        None
    }
}

/// The times of a plotted dataset, where what was read beside it has as many numbers.
pub open spec fn time_axis(
    nodes: Seq<NodeView>,
    idx: int,
    v: ValueView,
    time: Option<TimeSeries>,
) -> Option<Seq<Real>> {
    if time_node(nodes, idx, v) is Some {
        match time {
            Some(t) => match t.value@ {
                ValueView::Numeric { data, .. } => if data.len() == plot_data(v).len() {
                    Some(data)
                } else {
                    None
                },
                _ => None,
            },
            None => None,
        }
    } else {
        None
    }
}

/// The label of the x axis.
pub open spec fn x_axis_label(axis: Option<Seq<Real>>, time: Option<TimeSeries>) -> Seq<char> {
    match (axis, time) {
        (Some(_), Some(t)) => {
            let units = match attr_value(views(t.attrs@), "units"@) {
                Some(u) => u,
                None => "s"@,
            };
            "time ("@ + units + ")"@
        },
        _ => "index"@,
    }
}

impl Loaded {
    /// The plotted positions are those of the thinned series, and the times are as many as the
    /// numbers.
    pub open spec fn wf(&self) -> bool {
        &&& self.points@ == kept(self.y@)
        &&& self.x matches Some(t) ==> t@.len() == self.y@.len()
    }

    /// Whether there is a series to plot.
    pub open spec fn is_plottable(&self) -> bool {
        self.y@.len() > 1
    }

    /// Whether there is a series to plot.
    pub fn plottable(&self) -> (r: bool)
        ensures
            r == self.is_plottable(),
    {
        self.y.len() > 1
    }

    /// What was selected.
    pub fn sel(&self) -> (r: Sel)
        ensures
            r == (self.file, self.node),
    {
        (self.file, self.node)
    }
}

/// Whether at most one dimension of a shape is longer than one.
fn is_flat(shape: &Vec<usize>) -> (r: bool)
    ensures
        r == (long_dims(shape@) <= 1),
{
    let mut count: usize = 0;
    let mut i: usize = 0;
    while i < shape.len()
        invariant
            i <= shape.len(),
            count <= i,
            count == long_dims(shape@.take(i as int)),
        decreases shape.len() - i,
    {
        assert(shape@.take(i + 1).drop_last() =~= shape@.take(i as int));
        if shape[i] > 1 {
            count = count + 1;
        }
        i = i + 1;
    }
    assert(shape@.take(i as int) =~= shape@);
    count <= 1
}

/// The numbers of a value that can be plotted: more than one, along a single dimension.
fn plot_numbers(v: &Value) -> (r: Vec<Real>)
    ensures
        r@ == plot_data(v@),
{
    match v {
        Value::Numeric { data, shape } => if data.len() > 1 && is_flat(shape) {
            let r = data.clone();
            assert(r@ =~= data@);
            r
        } else {
            Vec::new()
        },
        _ => Vec::new(),
    }
}

/// The node to read for the time axis of a plotted dataset: a sibling `time` (SNS DASlogs
/// layout).
pub fn time_sibling(tree: &Tree, idx: usize, value: &Value) -> (r: Option<usize>)
    requires
        tree.wf(),
        idx < tree.nodes@.len(),
    ensures
        r == time_node(views(tree.nodes@), idx as int, value@),
        r is Some ==> r->0 < tree.nodes@.len(),
{
    let ghost nodes = views(tree.nodes@);
    assert(nodes[idx as int] == tree.nodes@[idx as int]@);
    assert(idx > 0 ==> hangs_on_parent(nodes, idx as int));
    if plot_numbers(value).len() > 0 && !same_text(tree.nodes[idx].name.as_str(), "time") {
        tree.child_named(tree.nodes[idx].parent, "time")
    } else {
        None
    }
}

/// The value of a dataset as it was read.
pub open spec fn value_read(read: NodeRead) -> ValueView {
    match read.value {
        Some(v) => v@,
        None => ValueView::Empty,
    }
}

/// Whether `l` is what is shown of node `idx` of file `file`, given what was read of it.
pub open spec fn is_loaded(
    l: Loaded,
    nodes: Seq<NodeView>,
    file: usize,
    idx: usize,
    read: NodeRead,
) -> bool {
    let v = value_read(read);
    let axis = time_axis(nodes, idx as int, v, read.time);
    &&& l.file == file
    &&& l.node == idx
    &&& l.attrs == read.attrs
    &&& l.label@ == pv_name(nodes, idx as int)
    &&& opt_text(l.units) == units_of(views(read.attrs@))
    &&& l.value@ == v
    &&& l.y@ == plot_data(v)
    &&& l.points@ == kept(plot_data(v))
    &&& match l.x {
        Some(t) => axis == Some(t@),
        None => axis is None,
    }
    &&& l.x_label@ == x_axis_label(axis, read.time)
    &&& match v {
        ValueView::Numeric { data, .. } => match l.stats {
            Some(s) => {
                &&& data.len() > 0
                &&& s.n == data.len()
                &&& is_least(data, s.min)
                &&& is_greatest(data, s.max)
                &&& !s.min.nan()
                &&& !s.max.nan()
                &&& s.mean == read.mean
            },
            None => data.len() == 0,
        },
        _ => l.stats is None,
    }
}

/// Derives what is shown of node `idx` of a file from what was read of it.
pub fn load_node(tree: &Tree, file: usize, idx: usize, read: NodeRead) -> (r: Loaded)
    requires
        tree.wf(),
        idx < tree.nodes@.len(),
    ensures
        r.wf(),
        is_loaded(r, views(tree.nodes@), file, idx, read),
{
    let ghost nodes = views(tree.nodes@);
    let node = &tree.nodes[idx];
    proof {
        assert(nodes[idx as int] == node@);
        assert(idx > 0 ==> hangs_on_parent(nodes, idx as int));
        assert(nodes[node.parent as int] == tree.nodes@[node.parent as int]@);
    }
    let label = if same_text(node.name.as_str(), "value") {
        tree.nodes[node.parent].name.clone()
    } else {
        node.name.clone()
    };
    let units = match find_attr(&read.attrs, "units") {
        Some(u) => if u.as_str().is_empty() {
            None
        } else {
            Some(u)
        },
        None => None,
    };
    let value = match read.value {
        Some(v) => v,
        None => Value::Empty,
    };
    let stats = match &value {
        Value::Numeric { data, .. } => compute_stats(data, read.mean),
        _ => None,
    };
    let y = plot_numbers(&value);
    let points = decimate(&y);
    let mut x: Option<Vec<Real>> = None;
    let mut x_label = "index".to_owned();
    if time_sibling(tree, idx, &value).is_some() {
        if let Some(t) = read.time {
            if let Value::Numeric { data, .. } = t.value {
                if data.len() == y.len() {
                    let mut label = "time (".to_owned();
                    match find_attr(&t.attrs, "units") {
                        Some(u) => label.append(u.as_str()),
                        None => label.append("s"),
                    }
                    label.append(")");
                    x_label = label;
                    x = Some(data);
                }
            }
        }
    }
    Loaded { file, node: idx, value, attrs: read.attrs, label, units, y, x, points, x_label, stats }
}

// ---------------------------------------------------------------------------------------------
// Labels and summaries
// ---------------------------------------------------------------------------------------------

/// "PV name (units)".
pub open spec fn axis_label(label: Seq<char>, units: Option<Seq<char>>) -> Seq<char> {
    match units {
        Some(u) => label + " ("@ + u + ")"@,
        None => label,
    }
}

/// "PV name (units)" label used on plot axes and legends.
pub fn series_label(l: &Loaded) -> (s: String)
    ensures
        s@ == axis_label(l.label@, opt_text(l.units)),
{
    let mut s = l.label.clone();
    if let Some(u) = &l.units {
        s.append(" (");
        s.append(u.as_str());
        s.append(")");
    }
    s
}

/// The texts of the numbers that a summary shows.
#[derive(Debug)]
pub struct NumberTexts {
    /// The first number.
    pub first: String,
    pub min: String,
    pub max: String,
    pub mean: String,
}

/// "n = …    min = …    max = …    mean = …".
pub open spec fn stats_text(n: nat, min: Seq<char>, max: Seq<char>, mean: Seq<char>) -> Seq<char> {
    "n = "@ + decimal(n) + "    min = "@ + min + "    max = "@ + max + "    mean = "@ + mean
}

/// The summary line of a dataset: how many numbers it has, and their extremes and mean.
pub fn stats_line(prefix: &str, n: usize, texts: &NumberTexts) -> (s: String)
    ensures
        s@ == prefix@ + stats_text(n as nat, texts.min@, texts.max@, texts.mean@),
{
    let mut s = "n = ".to_owned();
    s.append(to_decimal(n as u64).as_str());
    s.append("    min = ");
    s.append(texts.min.as_str());
    s.append("    max = ");
    s.append(texts.max.as_str());
    s.append("    mean = ");
    s.append(texts.mean.as_str());
    message(prefix, s.as_str())
}

/// The sizes of a shape in square brackets.
pub open spec fn shape_text(shape: Seq<usize>) -> Seq<char> {
    "["@ + joined(crate::browse::size_texts(shape), ", "@) + "]"@
}

/// The sizes of a shape in square brackets.
pub fn format_shape(shape: &Vec<usize>) -> (s: String)
    ensures
        s@ == shape_text(shape@),
{
    let mut texts: Vec<String> = Vec::new();
    let mut i: usize = 0;
    while i < shape.len()
        invariant
            i <= shape.len(),
            texts.len() == i,
            forall|j: int| 0 <= j < i ==> (#[trigger] texts@[j])@ == decimal(shape@[j] as nat),
        decreases shape.len() - i,
    {
        texts.push(to_decimal(shape[i] as u64));
        i = i + 1;
    }
    assert(views(texts@) =~= crate::browse::size_texts(shape@));
    let mut s = "[".to_owned();
    s.append(join(&texts, ", ").as_str());
    s.append("]");
    s
}

/// One line for a value in the cross-file table.
pub open spec fn summary_text(
    v: ValueView,
    units: Option<Seq<char>>,
    stats: Option<Stats>,
    texts: NumberTexts,
) -> Seq<char> {
    match v {
        ValueView::Empty => "(empty)"@,
        ValueView::Unsupported(m) => bracketed(m),
        ValueView::Strings(s) => if s.len() == 1 {
            truncated(s[0], 120)
        } else {
            decimal(s.len()) + " strings: "@ + truncated(s[0], 60) + ", …"@
        },
        ValueView::Numeric { data, shape } => if data.len() == 1 {
            match units {
                Some(u) => texts.first@ + " "@ + u,
                None => texts.first@,
            }
        } else {
            match stats {
                Some(s) => stats_text(s.n as nat, texts.min@, texts.max@, texts.mean@),
                None => "array "@ + shape_text(shape),
            }
        },
    }
}

/// One-line rendering of a PV for the cross-file table. A value of strings has at least one.
pub fn value_summary(l: &Loaded, texts: &NumberTexts) -> (s: String)
    requires
        l.value@ matches ValueView::Strings(s) ==> s.len() > 0,
    ensures
        s@ == summary_text(l.value@, opt_text(l.units), l.stats, *texts),
{
    match &l.value {
        Value::Empty => "(empty)".to_owned(),
        Value::Unsupported(m) => bracket(m.as_str()),
        Value::Strings(items) => {
            assert(views(items@)[0] == items@[0]@);
            if items.len() == 1 {
                truncate(items[0].as_str(), 120)
            } else {
                let mut s = to_decimal(items.len() as u64);
                s.append(" strings: ");
                s.append(truncate(items[0].as_str(), 60).as_str());
                s.append(", …");
                s
            }
        },
        Value::Numeric { data, shape } => if data.len() == 1 {
            let mut s = texts.first.clone();
            if let Some(u) = &l.units {
                s.append(" ");
                s.append(u.as_str());
            }
            s
        } else {
            match &l.stats {
                Some(st) => {
                    let s = stats_line("", st.n, texts);
                    proof {
                        reveal_strlit("");
                        assert(s@ =~= stats_text(
                            st.n as nat,
                            texts.min@,
                            texts.max@,
                            texts.mean@,
                        ));
                    }
                    s
                },
                None => message("array ", format_shape(shape).as_str()),
            }
        },
    }
}

// ---------------------------------------------------------------------------------------------
// Pairing two PVs
// ---------------------------------------------------------------------------------------------

/// A point of a plot of one PV against another: the position of the x PV, and how the value of
/// the y PV is taken.
#[derive(Clone, Copy, Debug, PartialEq, Eq, Structural)]
pub struct PairPoint {
    pub x: usize,
    pub y: Pick,
}

/// The x-y pairing of the two selected PVs.
#[derive(Debug)]
pub struct XyCache {
    pub key: (Sel, Sel, bool),
    pub points: Vec<PairPoint>,
    pub n_pairs: usize,
    /// How the pairs were built, or why they could not be.
    pub paired_by: String,
    pub x_label: String,
    pub y_label: String,
}

/// At most this many pairs are plotted.
pub const MAX_PAIRS: usize = 60_000;

/// Whether the time axis of the y PV can be interpolated onto that of the x PV, where both have
/// one.
pub open spec fn can_pair(xl: Loaded, yl: Loaded) -> bool {
    match (xl.x, yl.x) {
        (Some(tx), Some(ty)) => is_interpolable(tx@, ty@),
        _ => true,
    }
}

/// The pairs of two PVs: interpolated over time where both have times, else by index where they
/// are as long, else none.
pub open spec fn pairs(xl: Loaded, yl: Loaded) -> Seq<PairPoint> {
    match (xl.x, yl.x) {
        (Some(tx), Some(ty)) => Seq::new(
            xl.y@.len(),
            |i: int| PairPoint { x: i as usize, y: picks(tx@, ty@)[i] },
        ),
        _ => if xl.y@.len() == yl.y@.len() {
            Seq::new(xl.y@.len(), |i: int| PairPoint { x: i as usize, y: Pick::At(i as usize) })
        } else {
            Seq::empty()
        },
    }
}

/// How two PVs are paired, in words.
pub open spec fn pairing_text(xl: Loaded, yl: Loaded) -> Seq<char> {
    match (xl.x, yl.x) {
        (Some(tx), Some(ty)) => "\""@ + yl.label@ + "\" linearly interpolated onto \""@ + xl.label@
            + "\"'s time grid"@,
        _ => if xl.y@.len() == yl.y@.len() {
            "paired by index"@
        } else {
            "cannot pair these PVs: "@ + decimal(xl.y@.len()) + " vs "@ + decimal(yl.y@.len())
                + " points and no common time axis"@
        },
    }
}

/// Whether the pairing of two PVs can be built: see `can_pair`.
pub fn pairable(xl: &Loaded, yl: &Loaded) -> (r: bool)
    ensures
        r == can_pair(*xl, *yl),
{
    match (&xl.x, &yl.x) {
        (Some(tx), Some(ty)) => can_interpolate(tx, ty),
        _ => true,
    }
}

/// Whether `c` is the pairing of two PVs; `swap` says whether the second is the x PV.
pub open spec fn is_pairing(c: XyCache, a: Loaded, b: Loaded, swap: bool) -> bool {
    let (xl, yl) = if swap {
        (b, a)
    } else {
        (a, b)
    };
    &&& c.key == ((a.file, a.node), (b.file, b.node), swap)
    &&& c.points@ == capped(pairs(xl, yl), MAX_PAIRS as nat)
    &&& c.n_pairs == pairs(xl, yl).len()
    &&& c.paired_by@ == pairing_text(xl, yl)
    &&& c.x_label@ == axis_label(xl.label@, opt_text(xl.units))
    &&& c.y_label@ == axis_label(yl.label@, opt_text(yl.units))
}

/// Pair the two selected PVs into (x, y) points. PVs logged at different times are paired by
/// linearly interpolating the y PV onto the x PV's time grid; series without a time axis are
/// paired by index when lengths match.
pub fn build_xy(a: &Loaded, b: &Loaded, swap: bool) -> (c: XyCache)
    requires
        a.wf(),
        b.wf(),
        if swap {
            can_pair(*b, *a)
        } else {
            can_pair(*a, *b)
        },
    ensures
        is_pairing(c, *a, *b, swap),
{
    let xl = if swap {
        b
    } else {
        a
    };
    let yl = if swap {
        a
    } else {
        b
    };
    let x_label = series_label(xl);
    let y_label = series_label(yl);
    let mut points: Vec<PairPoint> = Vec::new();
    let paired_by;
    match (&xl.x, &yl.x) {
        (Some(tx), Some(ty)) => {
            let yi = interp_onto(tx, ty);
            let mut i: usize = 0;
            while i < xl.y.len()
                invariant
                    i <= xl.y.len(),
                    xl.x == Some(*tx),
                    yl.x == Some(*ty),
                    yi@ == picks(tx@, ty@),
                    yi@.len() == xl.y@.len(),
                    points@ == pairs(*xl, *yl).take(i as int),
                decreases xl.y.len() - i,
            {
                points.push(PairPoint { x: i, y: yi[i] });
                assert(pairs(*xl, *yl).take(i + 1) =~= pairs(*xl, *yl).take(i as int).push(
                    pairs(*xl, *yl)[i as int],
                ));
                i = i + 1;
            }
            assert(points@ =~= pairs(*xl, *yl));
            let mut text = "\"".to_owned();
            text.append(yl.label.as_str());
            text.append("\" linearly interpolated onto \"");
            text.append(xl.label.as_str());
            text.append("\"'s time grid");
            paired_by = text;
        },
        _ => {
            if xl.y.len() == yl.y.len() {
                let mut i: usize = 0;
                while i < xl.y.len()
                    invariant
                        i <= xl.y.len(),
                        xl.y.len() == yl.y.len(),
                        !(xl.x is Some && yl.x is Some),
                        points@ == pairs(*xl, *yl).take(i as int),
                    decreases xl.y.len() - i,
                {
                    points.push(PairPoint { x: i, y: Pick::At(i) });
                    assert(pairs(*xl, *yl).take(i + 1) =~= pairs(*xl, *yl).take(i as int).push(
                        pairs(*xl, *yl)[i as int],
                    ));
                    i = i + 1;
                }
                assert(points@ =~= pairs(*xl, *yl));
                paired_by = "paired by index".to_owned();
            } else {
                assert(points@ =~= pairs(*xl, *yl));
                let mut text = "cannot pair these PVs: ".to_owned();
                text.append(to_decimal(xl.y.len() as u64).as_str());
                text.append(" vs ");
                text.append(to_decimal(yl.y.len() as u64).as_str());
                text.append(" points and no common time axis");
                paired_by = text;
            }
        },
    }
    let n_pairs: usize = points.len();
    let points = stride_cap(points, MAX_PAIRS);
    XyCache { key: (a.sel(), b.sel(), swap), points, n_pairs, paired_by, x_label, y_label }
}

/// Every pair takes points that the two PVs have.
pub proof fn pairs_are_within(xl: Loaded, yl: Loaded, k: int)
    requires
        xl.wf(),
        yl.wf(),
        can_pair(xl, yl),
        xl.y@.len() <= usize::MAX,
        yl.y@.len() <= usize::MAX,
        0 <= k < pairs(xl, yl).len(),
    ensures
        pairs(xl, yl)[k].x < xl.y@.len(),
        pick_is_within(pairs(xl, yl)[k].y, yl.y@.len()),
{
    if let (Some(tx), Some(ty)) = (xl.x, yl.x) {
        picks_are_within(tx@, ty@, k);
    }
}

// ---------------------------------------------------------------------------------------------
// Laws
// ---------------------------------------------------------------------------------------------

/// PVs that are as long and have no common time axis are paired by index: there are as many pairs
/// as numbers, and each takes the number at one position of both, whichever of the two has times
/// and also where neither has. All pairs are plotted, or every n-th where there are more than
/// sixty thousand.
pub proof fn pairs_go_by_index(c: XyCache, a: Loaded, b: Loaded, swap: bool) -> (step: nat)
    requires
        is_pairing(c, a, b, swap),
        a.x is None || b.x is None,
        a.y@.len() == b.y@.len(),
        0 < a.y@.len() <= usize::MAX,
    ensures
        c.n_pairs == a.y@.len(),
        c.paired_by@ == "paired by index"@,
        step >= 1,
        a.y@.len() <= 60_000 ==> step == 1 && c.points@.len() == a.y@.len(),
        a.y@.len() > 60_000 ==> (step - 1) * 60_000 < a.y@.len() <= step * 60_000,
        (c.points@.len() - 1) * step < a.y@.len() <= c.points@.len() * step,
        forall|i: int|
            0 <= i < c.points@.len() ==> (#[trigger] c.points@[i]).x == i * step && c.points@[i].y
                == Pick::At((i * step) as usize),
{
    let (xl, yl) = if swap {
        (b, a)
    } else {
        (a, b)
    };
    let all = pairs(xl, yl);
    let n = all.len() as int;
    let step = capping_takes_every_nth(all, MAX_PAIRS as nat);
    let l = c.points@.len() as int;
    let s = step as int;
    assert forall|i: int| 0 <= i < c.points@.len() implies (#[trigger] c.points@[i]).x == i * step
        && c.points@[i].y == Pick::At((i * step) as usize) by {
        assert(0 <= i * s <= (l - 1) * s) by (nonlinear_arith)
            requires
                0 <= i <= l - 1,
                s >= 1,
        ;
        assert(c.points@[i] == all[i * s]);
        assert(all[i * s] == (PairPoint { x: (i * s) as usize, y: Pick::At((i * s) as usize) }));
    }
    if n <= 60_000 {
        assert(l == n) by (nonlinear_arith)
            requires
                (l - 1) * s < n <= l * s,
                s == 1,
        ;
    }
    step
}

/// The pairs of PVs that are as long and have no common time axis, one for each position.
pub proof fn index_pairs_take_one_position(xl: Loaded, yl: Loaded, i: int)
    requires
        xl.x is None || yl.x is None,
        xl.y@.len() == yl.y@.len(),
        0 <= i < xl.y@.len() <= usize::MAX,
    ensures
        pairs(xl, yl).len() == xl.y@.len(),
        pairs(xl, yl)[i].x == i,
        pairs(xl, yl)[i].y == Pick::At(i as usize),
{
}

/// PVs that are not as long and have no common time axis are not paired.
pub proof fn uneven_series_are_not_paired(c: XyCache, a: Loaded, b: Loaded, swap: bool)
    requires
        is_pairing(c, a, b, swap),
        a.x is None || b.x is None,
        a.y@.len() != b.y@.len(),
    ensures
        c.n_pairs == 0,
        c.points@.len() == 0,
        ({
            let (m, n) = if swap {
                (b.y@.len(), a.y@.len())
            } else {
                (a.y@.len(), b.y@.len())
            };
            c.paired_by@ == "cannot pair these PVs: "@ + decimal(m) + " vs "@ + decimal(n)
                + " points and no common time axis"@
        }),
{
}

/// PVs that both have sorted times are paired over time: there is a pair for each number of the x
/// PV, and the y value is taken at its time: that of the first or the last sample outside them,
/// else on the line between the neighbouring samples.
pub proof fn pairs_go_by_time(c: XyCache, xl: Loaded, yl: Loaded, k: int)
    requires
        is_pairing(c, xl, yl, false),
        xl.wf(),
        yl.wf(),
        xl.x is Some,
        yl.x is Some,
        xl.y@.len() <= usize::MAX,
        0 < yl.y@.len() <= usize::MAX,
        forall|i: int| 0 <= i < xl.x->0@.len() ==> !(#[trigger] xl.x->0@[i]).nan(),
        forall|i: int| 0 <= i < yl.x->0@.len() ==> !(#[trigger] yl.x->0@[i]).nan(),
        forall|i: int, j: int|
            0 <= i <= j < xl.x->0@.len() ==> xl.x->0@[i].rank() <= xl.x->0@[j].rank(),
        forall|i: int, j: int|
            0 <= i <= j < yl.x->0@.len() ==> yl.x->0@[i].rank() <= yl.x->0@[j].rank(),
        0 <= k < c.points@.len(),
    ensures
        c.n_pairs == xl.y@.len(),
        c.paired_by@ == "\""@ + yl.label@ + "\" linearly interpolated onto \""@ + xl.label@
            + "\"'s time grid"@,
        c.points@[k].x < xl.y@.len(),
        xl.y@.len() <= 60_000 ==> c.points@.len() == xl.y@.len() && c.points@[k].x == k,
        ({
            let t = yl.x->0@;
            let x = xl.x->0@[c.points@[k].x as int];
            let pick = c.points@[k].y;
            &&& x.rank() <= t[0].rank() ==> pick == Pick::At(0)
            &&& x.rank() > t[0].rank() && x.rank() >= t.last().rank() ==> pick == Pick::At(
                (t.len() - 1) as usize,
            )
            &&& t[0].rank() < x.rank() < t.last().rank() ==> (pick matches Pick::Between(j) && j + 1
                < t.len() && t[j as int].rank() < x.rank() <= t[j + 1].rank())
        }),
{
    let all = pairs(xl, yl);
    let n = all.len() as int;
    let step = capping_takes_every_nth(all, MAX_PAIRS as nat);
    let l = c.points@.len() as int;
    let s = step as int;
    assert(0 <= k * s <= (l - 1) * s) by (nonlinear_arith)
        requires
            0 <= k <= l - 1,
            s >= 1,
    ;
    assert(c.points@[k] == all[k * s]);
    let i = k * s;
    let (tx, ty) = (xl.x->0@, yl.x->0@);
    values_are_taken_between_neighbours(tx, ty, i);
    assert(all[i] == (PairPoint { x: i as usize, y: picks(tx, ty)[i] }));
    if n <= 60_000 {
        assert(l == n && k * s == k) by (nonlinear_arith)
            requires
                (l - 1) * s < n <= l * s,
                s == 1,
        ;
    }
}

/// Exchanging the axes pairs the PVs the other way round.
pub proof fn swapping_exchanges_the_axes(c: XyCache, d: XyCache, a: Loaded, b: Loaded)
    requires
        is_pairing(c, a, b, true),
        is_pairing(d, b, a, false),
    ensures
        c.points@ == d.points@,
        c.n_pairs == d.n_pairs,
        c.paired_by@ == d.paired_by@,
        c.x_label@ == d.x_label@,
        c.y_label@ == d.y_label@,
        c.key == ((a.file, a.node), (b.file, b.node), true),
        d.key == ((b.file, b.node), (a.file, a.node), false),
        c.x_label@ == match b.units {
            Some(u) => b.label@ + " ("@ + u@ + ")"@,
            None => b.label@,
        },
        c.y_label@ == match a.units {
            Some(u) => a.label@ + " ("@ + u@ + ")"@,
            None => a.label@,
        },
{
}

/// A shape has at most one long dimension exactly where no two positions of it are longer than
/// one.
pub proof fn long_dims_are_counted(shape: Seq<usize>)
    ensures
        long_dims(shape) <= 1 <==> forall|i: int, j: int|
            0 <= i < j < shape.len() ==> !(#[trigger] shape[i] > 1 && #[trigger] shape[j] > 1),
        long_dims(shape) == 0 <==> forall|i: int| 0 <= i < shape.len() ==> #[trigger] shape[i] <= 1,
    decreases shape.len(),
{
    if shape.len() > 0 {
        let init = shape.drop_last();
        long_dims_are_counted(init);
        let n = shape.len() - 1;
        if shape.last() > 1 {
            if long_dims(init) > 0 {
                let i = choose|i: int| 0 <= i < init.len() && !(#[trigger] init[i] <= 1);
                assert(shape[i] > 1 && shape[n] > 1);
            } else {
                assert forall|i: int, j: int| 0 <= i < j < shape.len() implies !(
                #[trigger] shape[i] > 1 && #[trigger] shape[j] > 1) by {
                    assert(init[i] <= 1);
                }
            }
            assert(!(shape[n] <= 1));
        } else {
            if long_dims(init) <= 1 {
                assert forall|i: int, j: int| 0 <= i < j < shape.len() implies !(
                #[trigger] shape[i] > 1 && #[trigger] shape[j] > 1) by {
                    if j < n {
                        assert(!(init[i] > 1 && init[j] > 1));
                    }
                }
            } else {
                let (i, j) = choose|i: int, j: int|
                    0 <= i < j < init.len() && #[trigger] init[i] > 1 && #[trigger] init[j] > 1;
                assert(shape[i] > 1 && shape[j] > 1);
            }
            if long_dims(init) == 0 {
                assert forall|i: int| 0 <= i < shape.len() implies #[trigger] shape[i] <= 1 by {
                    if i < n {
                        assert(init[i] <= 1);
                    }
                }
            } else {
                let i = choose|i: int| 0 <= i < init.len() && !(#[trigger] init[i] <= 1);
                assert(!(shape[i] <= 1));
            }
        }
    }
}

/// A numeric value is plotted exactly where it has more than one number and no two dimensions of
/// its shape are longer than one; then all its numbers are. Nothing else is plotted.
pub proof fn only_flat_series_are_plotted(
    l: Loaded,
    nodes: Seq<NodeView>,
    file: usize,
    idx: usize,
    read: NodeRead,
)
    requires
        is_loaded(l, nodes, file, idx, read),
    ensures
        match read.value {
            Some(Value::Numeric { data, shape }) => {
                &&& data@.len() <= 1 ==> l.y@.len() == 0
                &&& (exists|i: int, j: int|
                    0 <= i < j < shape@.len() && #[trigger] shape@[i] > 1 && #[trigger] shape@[j] > 1)
                    ==> l.y@.len() == 0
                &&& data@.len() > 1 && (forall|i: int, j: int|
                    0 <= i < j < shape@.len() ==> !(#[trigger] shape@[i] > 1 && #[trigger] shape@[j]
                        > 1)) ==> l.y@ == data@
            },
            _ => l.y@.len() == 0,
        },
        l.y@.len() == 0 ==> l.points@.len() == 0 && l.x is None && !l.is_plottable(),
        l.y@.len() > 0 ==> l.is_plottable(),
        0 < l.y@.len() <= 20_000 ==> l.points@ == Seq::new(l.y@.len(), |i: int| i as usize),
        l.points@ == kept(l.y@),
{
    if let Some(Value::Numeric { data, shape }) = read.value {
        long_dims_are_counted(shape@);
    }
    assert(kept(Seq::<Real>::empty()).len() == 0);
    if l.y@.len() == 0 {
        assert(l.y@ =~= Seq::empty());
    }
}

/// What was read is kept: the attributes, and the value, which is empty where the node does not
/// open as a dataset.
pub proof fn what_was_read_is_shown(
    l: Loaded,
    nodes: Seq<NodeView>,
    file: usize,
    idx: usize,
    read: NodeRead,
)
    requires
        is_loaded(l, nodes, file, idx, read),
    ensures
        l.attrs == read.attrs,
        (l.file, l.node) == (file, idx),
        match read.value {
            Some(v) => l.value@ == v@,
            None => l.value is Empty,
        },
        nodes[idx as int].name == "value"@ ==> l.label@ == nodes[nodes[idx as int].parent].name,
        nodes[idx as int].name != "value"@ ==> l.label@ == nodes[idx as int].name,
{
}

/// The first attribute with a name counts.
pub proof fn first_attribute_counts(attrs: Seq<(Seq<char>, Seq<char>)>, name: Seq<char>, i: int)
    requires
        0 <= i < attrs.len(),
        attrs[i].0 == name,
        forall|j: int| 0 <= j < i ==> (#[trigger] attrs[j]).0 != name,
    ensures
        attr_value(attrs, name) == Some(attrs[i].1),
    decreases attrs.len(),
{
    if i > 0 {
        let rest = attrs.skip(1);
        assert(attrs[0].0 != name);
        assert forall|j: int| 0 <= j < i - 1 implies (#[trigger] rest[j]).0 != name by {
            assert(rest[j] == attrs[j + 1]);
        }
        first_attribute_counts(rest, name, i - 1);
    }
}

/// Without an attribute of the name there is no value.
pub proof fn missing_attribute_has_no_value(attrs: Seq<(Seq<char>, Seq<char>)>, name: Seq<char>)
    requires
        forall|j: int| 0 <= j < attrs.len() ==> (#[trigger] attrs[j]).0 != name,
    ensures
        attr_value(attrs, name) is None,
    decreases attrs.len(),
{
    if attrs.len() > 0 {
        let rest = attrs.skip(1);
        assert forall|j: int| 0 <= j < rest.len() implies (#[trigger] rest[j]).0 != name by {
            assert(rest[j] == attrs[j + 1]);
        }
        missing_attribute_has_no_value(rest, name);
    }
}

/// The units are what the first attribute `units` says, where it says anything.
pub proof fn units_are_what_the_attribute_says(
    l: Loaded,
    nodes: Seq<NodeView>,
    file: usize,
    idx: usize,
    read: NodeRead,
    i: int,
)
    requires
        is_loaded(l, nodes, file, idx, read),
        0 <= i <= read.attrs@.len(),
        forall|j: int| 0 <= j < i ==> (#[trigger] read.attrs@[j]).0@ != "units"@,
        i < read.attrs@.len() ==> read.attrs@[i].0@ == "units"@,
    ensures
        i == read.attrs@.len() ==> l.units is None,
        i < read.attrs@.len() && read.attrs@[i].1@.len() == 0 ==> l.units is None,
        i < read.attrs@.len() && read.attrs@[i].1@.len() > 0 ==> (l.units matches Some(u) && u@
            == read.attrs@[i].1@),
{
    let attrs = views(read.attrs@);
    assert forall|j: int| 0 <= j < i implies (#[trigger] attrs[j]).0 != "units"@ by {
        assert(read.attrs@[j].0@ != "units"@);
    }
    if i < attrs.len() {
        first_attribute_counts(attrs, "units"@, i);
    } else {
        missing_attribute_has_no_value(attrs, "units"@);
    }
}

/// A plotted dataset has the times of the `time` dataset beside it, where that is numeric and as
/// long, and the axis says their units; else it is plotted over its positions.
pub proof fn times_come_from_the_sibling(
    l: Loaded,
    nodes: Seq<NodeView>,
    file: usize,
    idx: usize,
    read: NodeRead,
    s: int,
)
    requires
        is_tree(nodes),
        nodes.len() <= usize::MAX,
        idx < nodes.len(),
        is_loaded(l, nodes, file, idx, read),
    ensures
        l.x is None ==> l.x_label@ == "index"@,
        nodes[idx as int].name == "time"@ ==> l.x is None,
        (forall|j: int|
            0 < j < nodes.len() && #[trigger] nodes[j].parent == nodes[idx as int].parent
                ==> nodes[j].name != "time"@) ==> l.x is None,
        l.y@.len() > 0 && nodes[idx as int].name != "time"@ && 0 < s < nodes.len()
            && nodes[s].parent == nodes[idx as int].parent && nodes[s].name == "time"@ ==> match read.time {
            Some(TimeSeries { value: Value::Numeric { data, shape }, attrs }) => {
                &&& data@.len() == l.y@.len() ==> {
                    &&& l.x matches Some(t) && t@ == data@
                    &&& l.x_label@ == match attr_value(views(attrs@), "units"@) {
                        Some(u) => "time ("@ + u + ")"@,
                        None => "time ("@ + "s"@ + ")"@,
                    }
                }
                &&& data@.len() != l.y@.len() ==> l.x is None
            },
            _ => l.x is None,
        },
{
    let p = nodes[idx as int].parent;
    assert(idx > 0 ==> hangs_on_parent(nodes, idx as int));
    child_named_is_a_child(nodes, p, "time"@);
    match first_child_named(nodes, p, "time"@) {
        Some(c) => {
            assert(children_hang_on(nodes, p));
            first_child_is_no_root(nodes, p, "time"@);
            assert(nodes[c as int].parent == p);
        },
        None => {},
    }
}

/// The extremes and the number of numbers are those of the value; no other value has any.
pub proof fn stats_are_of_the_value(
    l: Loaded,
    nodes: Seq<NodeView>,
    file: usize,
    idx: usize,
    read: NodeRead,
    i: int,
)
    requires
        is_loaded(l, nodes, file, idx, read),
    ensures
        match read.value {
            Some(Value::Numeric { data, .. }) => {
                &&& l.stats is Some == (data@.len() > 0)
                &&& l.stats matches Some(s) ==> {
                    &&& s.n == data@.len()
                    &&& s.mean == read.mean
                    &&& 0 <= i < data@.len() && !data@[i].nan() ==> {
                        &&& s.min.rank() <= data@[i].rank() <= s.max.rank()
                        &&& data@.contains(s.min)
                        &&& data@.contains(s.max)
                    }
                }
            },
            _ => l.stats is None,
        },
{
    if let Some(Value::Numeric { data, .. }) = read.value {
        if let Some(s) = l.stats {
            if 0 <= i < data@.len() {
                extremes_bound_the_data(data@, s.min, s.max, i);
            }
        }
    }
}

/// A single number is summed up by its text and its units, several by how many they are, their
/// extremes and their mean; a single string by what it begins with, several by their number and
/// the first.
pub proof fn summary_says_what_there_is(
    l: Loaded,
    texts: NumberTexts,
    data: Seq<Real>,
    shape: Seq<usize>,
    items: Seq<Seq<char>>,
    m: Seq<char>,
)
    ensures
        ({
            let units = opt_text(l.units);
            &&& data.len() == 1 ==> summary_text(
                ValueView::Numeric { data, shape },
                units,
                l.stats,
                texts,
            ) == match l.units {
                Some(u) => texts.first@ + " "@ + u@,
                None => texts.first@,
            }
            &&& data.len() != 1 && l.stats is Some ==> summary_text(
                ValueView::Numeric { data, shape },
                units,
                l.stats,
                texts,
            ) == "n = "@ + decimal(l.stats->0.n as nat) + "    min = "@ + texts.min@ + "    max = "@
                + texts.max@ + "    mean = "@ + texts.mean@
            &&& data.len() != 1 && l.stats is None ==> summary_text(
                ValueView::Numeric { data, shape },
                units,
                l.stats,
                texts,
            ) == "array "@ + shape_text(shape)
            &&& items.len() == 1 ==> summary_text(
                ValueView::Strings(items),
                units,
                l.stats,
                texts,
            ) == truncated(items[0], 120)
            &&& items.len() > 1 ==> summary_text(
                ValueView::Strings(items),
                units,
                l.stats,
                texts,
            ) == decimal(items.len()) + " strings: "@ + truncated(items[0], 60) + ", …"@
            &&& summary_text(ValueView::Empty, units, l.stats, texts) == "(empty)"@
            &&& summary_text(ValueView::Unsupported(m), units, l.stats, texts) == "<"@ + m + ">"@
        }),
{
}

/// A shape is written as its sizes between square brackets, with commas between them.
pub proof fn shapes_are_written_in_brackets(a: Seq<usize>, b: Seq<usize>, n: usize)
    ensures
        shape_text(seq![n]) == "["@ + decimal(n as nat) + "]"@,
        shape_text(Seq::<usize>::empty()) == "["@ + "]"@,
        a.len() > 0 && b.len() > 0 ==> exists|s: Seq<char>, t: Seq<char>|
            {
                &&& shape_text(a) == #[trigger] ("["@ + s + "]"@)
                &&& shape_text(b) == #[trigger] ("["@ + t + "]"@)
                &&& shape_text(a + b) == "["@ + (s + ", "@ + t) + "]"@
            },
{
    let one = crate::browse::size_texts(seq![n]);
    let none = crate::browse::size_texts(Seq::<usize>::empty());
    let (s, t) = (crate::browse::size_texts(a), crate::browse::size_texts(b));
    assert(one =~= seq![decimal(n as nat)]);
    assert(none =~= Seq::empty());
    assert("["@ + Seq::<char>::empty() =~= "["@);
    joining_puts_separators_between(s, t, decimal(n as nat), ", "@);
    assert(crate::browse::size_texts(a + b) =~= s + t);
    let (u, v) = (joined(s, ", "@), joined(t, ", "@));
    if a.len() > 0 && b.len() > 0 {
        assert(shape_text(a) == "["@ + u + "]"@);
        assert(shape_text(b) == "["@ + v + "]"@);
    }
}

/// PVs without a common time axis can always be paired or said not to be; with one it is their times
/// that decide. An optional text is there where the text is.
pub proof fn times_decide_on_pairing(xl: Loaded, yl: Loaded, s: String)
    ensures
        xl.x is None || yl.x is None ==> can_pair(xl, yl),
        xl.x is Some && yl.x is Some ==> can_pair(xl, yl) == is_interpolable(xl.x->0@, yl.x->0@),
        opt_text(Some(s)) == Some(s@),
        opt_text(None) is None,
{
}

/// Where both PVs have times there is a pair for each number of the x PV, with the y value taken at
/// its time.
pub proof fn time_pairs_take_each_number(xl: Loaded, yl: Loaded, i: int)
    requires
        xl.wf(),
        xl.x is Some,
        yl.x is Some,
        0 <= i < xl.y@.len() <= usize::MAX,
    ensures
        pairs(xl, yl).len() == xl.y@.len(),
        pairs(xl, yl)[i].x == i,
        pairs(xl, yl)[i].y == picks(xl.x->0@, yl.x->0@)[i],
{
}

} // verus!
