//! What the panels of the viewer show: which view of a dataset, and the texts around it.

use crate::datatype::{message, Value, ValueView};
use crate::number::Real;
use crate::order::views;
use crate::path::{entry_lies_in_directory, entry_of, name_of, FilePath};
use crate::pv::{
    attr_value, axis_label, find_attr, format_shape, opt_text, series_label, shape_text,
    summary_text, value_summary, Loaded, NumberTexts, Sel, XyCache,
};
use crate::runs::{trailing_number, trailing_number_of, trailing_number_reads_back};
use crate::series::{capped, capped_is_few, capping_takes_every_nth, stride_cap};
use crate::text::{
    decimal, drop_suffixes, ends_with, join, joined, joining_puts_separators_between, same_text,
    suffixes_are_dropped, to_decimal, without_suffixes,
};
use crate::tree::Node;
use vstd::prelude::*;
use vstd::string::*;

verus! {

// ---------------------------------------------------------------------------------------------
// Names of files
// ---------------------------------------------------------------------------------------------

/// The name that a path ends with, and for a path without a name its spelling.
pub open spec fn name_or_path(p: Seq<char>) -> Seq<char> {
    match name_of(p) {
        Some(s) => s,
        None => p,
    }
}

/// The name that a path ends with, and for a path without a name its spelling.
fn name_or_text(p: &FilePath) -> (s: String)
    ensures
        s@ == name_or_path(p@),
{
    match p.file_name() {
        Some(s) => s,
        None => p.to_text(),
    }
}

/// The short name of a file: its name without the extensions `.h5` and `.nxs`.
pub open spec fn short_name(p: Seq<char>) -> Seq<char> {
    without_suffixes(without_suffixes(name_or_path(p), ".h5"@), ".nxs"@)
}

/// Short name shown in the tree, tables and legends: the file name minus the .nxs.h5 extensions
/// (e.g. "VENUS_26871").
pub fn file_label(p: &FilePath) -> (s: String)
    ensures
        s@ == short_name(p@),
{
    let name = name_or_text(p);
    proof {
        reveal_strlit(".h5");
        reveal_strlit(".nxs");
    }
    drop_suffixes(drop_suffixes(name.as_str(), ".h5").as_str(), ".nxs")
}

/// The title of the window for the open files.
pub open spec fn window_title(files: Seq<Seq<char>>) -> Seq<char> {
    if files.len() == 0 {
        "NeXus Viewer"@
    } else if files.len() == 1 {
        "NeXus Viewer — "@ + match name_of(files[0]) {
            Some(s) => s,
            None => Seq::empty(),
        }
    } else {
        "NeXus Viewer — "@ + decimal(files.len()) + " files"@
    }
}

/// The title of the window for the open files.
pub fn title_of(files: &Vec<&FilePath>) -> (s: String)
    ensures
        s@ == window_title(Seq::new(files@.len(), |i: int| files@[i]@)),
{
    let n: usize = files.len();
    if n == 0 {
        "NeXus Viewer".to_owned()
    } else if n == 1 {
        message("NeXus Viewer — ", name_or_nothing(files[0]).as_str())
    } else {
        counted("NeXus Viewer — ", n, " files")
    }
}

/// `head`, then a number, then `tail`.
pub fn counted(head: &str, n: usize, tail: &str) -> (s: String)
    ensures
        s@ == head@ + decimal(n as nat) + tail@,
{
    let mut s = head.to_owned();
    s.append(to_decimal(n as u64).as_str());
    s.append(tail);
    s
}

// ---------------------------------------------------------------------------------------------
// The top bar
// ---------------------------------------------------------------------------------------------

/// How far opening files has come.
pub open spec fn progress(total: nat, left: nat) -> Seq<char> {
    "opening "@ + decimal((total - left) as nat) + "/"@ + decimal(total) + "…"@
}

/// How far opening files has come.
pub fn progress_text(total: usize, left: usize) -> (s: String)
    requires
        left <= total,
    ensures
        s@ == progress(total as nat, left as nat),
{
    let mut s = counted("opening ", total - left, "/");
    s.append(to_decimal(total as u64).as_str());
    s.append("…");
    s
}

/// What is said of a single open file.
pub open spec fn heading(shown: Seq<char>, n_groups: nat, n_datasets: nat) -> Seq<char> {
    shown + "   ("@ + decimal(n_groups) + " groups, "@ + decimal(n_datasets) + " datasets)"@
}

/// What is said of a single open file.
pub fn file_heading(shown: &str, n_groups: usize, n_datasets: usize) -> (s: String)
    ensures
        s@ == heading(shown@, n_groups as nat, n_datasets as nat),
{
    let mut s = shown.to_owned();
    s.append("   (");
    s.append(to_decimal(n_groups as u64).as_str());
    s.append(" groups, ");
    s.append(to_decimal(n_datasets as u64).as_str());
    s.append(" datasets)");
    s
}

/// An entry of the menu of recent files.
#[derive(Debug)]
pub struct RecentEntry {
    pub name: String,
    pub hover: String,
    /// What is said of it where the file is gone.
    pub missing: String,
}

/// The entry of a recent file in the menu.
pub fn recent_entry(p: &FilePath) -> (r: RecentEntry)
    ensures
        r.name@ == name_or_path(p@),
        r.hover@ == p@ + "\nCtrl+click: add to the open files"@,
        r.missing@ == "File not found: "@ + p@,
{
    RecentEntry {
        name: name_or_text(p),
        hover: message(p.text.as_str(), "\nCtrl+click: add to the open files"),
        missing: message("File not found: ", p.text.as_str()),
    }
}

// ---------------------------------------------------------------------------------------------
// The runs popup
// ---------------------------------------------------------------------------------------------

/// The name of a file, empty where it has none.
pub open spec fn name_or_empty(p: Seq<char>) -> Seq<char> {
    match name_of(p) {
        Some(s) => s,
        None => Seq::empty(),
    }
}

/// The name of a file, empty where it has none.
fn name_or_nothing(p: &FilePath) -> (s: String)
    ensures
        s@ == name_or_empty(p@),
{
    match p.file_name() {
        Some(s) => s,
        None => String::new(),
    }
}

/// What is said of the files found for a run list.
pub open spec fn found_text(files: Seq<Seq<char>>) -> Seq<char> {
    if files.len() == 0 {
        "no matching file"@
    } else if files.len() == 1 {
        "1 file: "@ + name_or_empty(files[0])
    } else {
        decimal(files.len()) + " files: "@ + name_or_empty(files[0]) + " … "@ + name_or_empty(
            files.last(),
        )
    }
}

/// What is said of the files found for a run list.
pub fn describe_found(files: &Vec<FilePath>) -> (s: String)
    ensures
        s@ == found_text(views(files@)),
{
    let n: usize = files.len();
    if n == 0 {
        return "no matching file".to_owned();
    }
    assert(views(files@)[0] == files@[0]@);
    assert(views(files@).last() == files@[n - 1]@);
    if n == 1 {
        message("1 file: ", name_or_nothing(&files[0]).as_str())
    } else {
        let mut s = to_decimal(n as u64);
        s.append(" files: ");
        s.append(name_or_nothing(&files[0]).as_str());
        s.append(" … ");
        s.append(name_or_nothing(&files[n - 1]).as_str());
        s
    }
}

// ---------------------------------------------------------------------------------------------
// The dataset view
// ---------------------------------------------------------------------------------------------

/// The views of a selected dataset.
#[derive(Clone, Copy, Debug, PartialEq, Eq, Structural)]
pub enum Body {
    /// Two plottable PVs against each other.
    Compare,
    /// The PV in every open file.
    AcrossFiles,
    /// Nothing was read.
    Empty,
    /// A message says why nothing was read.
    Unsupported,
    /// A list of strings.
    Strings,
    /// A single number.
    Scalar,
    /// A curve.
    Plot,
    /// The first numbers of an array that is not plotted.
    Array,
}

/// What is shown of a selected dataset.
#[derive(Clone, Copy, Debug, PartialEq, Eq, Structural)]
pub struct Content {
    /// Whether a warning says that the second selection cannot be plotted.
    pub warn_second: bool,
    pub body: Body,
}

/// The view of a single value.
pub open spec fn value_body(v: ValueView, points: nat) -> Body {
    match v {
        ValueView::Empty => Body::Empty,
        ValueView::Unsupported(_) => Body::Unsupported,
        ValueView::Strings(_) => Body::Strings,
        ValueView::Numeric { data, .. } => if data.len() == 1 {
            Body::Scalar
        } else if points > 0 {
            Body::Plot
        } else {
            Body::Array
        },
    }
}

/// What is shown of a selected dataset; `many` says whether several files are open.
pub open spec fn content_of(l: Loaded, second: Option<Loaded>, many: bool) -> Content {
    match second {
        Some(l2) => if l.is_plottable() && l2.is_plottable() {
            Content { warn_second: false, body: Body::Compare }
        } else {
            Content { warn_second: true, body: value_body(l.value@, l.points@.len()) }
        },
        None => Content {
            warn_second: false,
            body: if many {
                Body::AcrossFiles
            } else {
                value_body(l.value@, l.points@.len())
            },
        },
    }
}

/// What is shown of a selected dataset: two plottable PVs are compared, a PV is shown across
/// several open files, and else on its own.
pub fn dataset_content(l: &Loaded, second: &Option<Loaded>, many: bool) -> (c: Content)
    ensures
        c == content_of(*l, *second, many),
{
    let mut warn_second = false;
    match second {
        Some(l2) => {
            if l.plottable() && l2.plottable() {
                return Content { warn_second: false, body: Body::Compare };
            }
            warn_second = true;
        },
        None => {
            if many {
                return Content { warn_second: false, body: Body::AcrossFiles };
            }
        },
    }
    let body = match &l.value {
        Value::Empty => Body::Empty,
        Value::Unsupported(_) => Body::Unsupported,
        Value::Strings(_) => Body::Strings,
        Value::Numeric { data, .. } => if data.len() == 1 {
            Body::Scalar
        } else if l.points.len() > 0 {
            Body::Plot
        } else {
            Body::Array
        },
    };
    Content { warn_second, body }
}

/// The line above a value: the datatype and the shape of the node.
pub fn node_info(node: &Node) -> (s: String)
    ensures
        s@ == "dtype: "@ + node.dtype@ + "   shape: "@ + shape_text(node.shape@),
{
    let mut s = "dtype: ".to_owned();
    s.append(node.dtype.as_str());
    s.append("   shape: ");
    s.append(format_shape(&node.shape).as_str());
    s
}

/// The line above the first values of an array that is not plotted.
pub fn array_note(shape: &Vec<usize>) -> (s: String)
    ensures
        s@ == decimal(shape@.len()) + "-D array "@ + shape_text(shape@)
            + " — plotting supports 1-D data. First values:"@,
{
    let mut s = to_decimal(shape.len() as u64);
    s.append("-D array ");
    s.append(format_shape(shape).as_str());
    s.append(" — plotting supports 1-D data. First values:");
    s
}

/// A single number with its units.
pub fn scalar_text(l: &Loaded, number: &str) -> (s: String)
    ensures
        s@ == number@ + match attr_value(views(l.attrs@), "units"@) {
            Some(u) => " "@ + u,
            None => Seq::empty(),
        },
{
    let mut s = number.to_owned();
    match find_attr(&l.attrs, "units") {
        Some(u) => {
            s.append(message(" ", u.as_str()).as_str());
        },
        None => {
            assert(s@ =~= number@ + Seq::<char>::empty());
        },
    }
    s
}

/// At most this many strings of a list are shown.
pub const MAX_STRINGS: usize = 2000;

/// How a value of strings is shown.
#[derive(Debug)]
pub enum StringsView {
    /// A single string, as it is.
    One(String),
    /// How many there are, the first of them with their positions, and what is said of the rest.
    Many { heading: String, lines: Vec<String>, rest: Option<String> },
}

/// How a value of strings is shown.
pub fn show_strings(items: &Vec<String>) -> (r: StringsView)
    ensures
        ({
            let n = items@.len();
            match r {
                StringsView::One(s) => n == 1 && s@ == items@[0]@,
                StringsView::Many { heading, lines, rest } => {
                    &&& n != 1
                    &&& heading@ == decimal(n) + " strings:"@
                    &&& lines@.len() == if n <= MAX_STRINGS {
                        n
                    } else {
                        MAX_STRINGS as nat
                    }
                    &&& forall|i: int|
                        0 <= i < lines@.len() ==> (#[trigger] lines@[i])@ == "["@ + decimal(i as nat)
                            + "] "@ + items@[i]@
                    &&& opt_text(rest) == if n <= MAX_STRINGS {
                        None
                    } else {
                        Some("… "@ + decimal((n - MAX_STRINGS) as nat) + " more"@)
                    }
                },
            }
        }),
        r matches StringsView::Many { lines, rest, .. } ==> lines@.len() == if items@.len() <= 2_000 {
            items@.len()
        } else {
            2_000
        } && rest is Some == (items@.len() > 2_000),
{
    let n: usize = items.len();
    if n == 1 {
        return StringsView::One(items[0].clone());
    }
    let mut lines: Vec<String> = Vec::new();
    let mut i: usize = 0;
    while i < n && i < MAX_STRINGS
        invariant
            i <= n,
            i <= MAX_STRINGS,
            n == items@.len(),
            lines@.len() == i,
            forall|k: int|
                0 <= k < i ==> (#[trigger] lines@[k])@ == "["@ + decimal(k as nat) + "] "@
                    + items@[k]@,
        decreases n - i,
    {
        let mut line = counted("[", i, "] ");
        line.append(items[i].as_str());
        lines.push(line);
        i = i + 1;
    }
    let mut heading = to_decimal(n as u64);
    heading.append(" strings:");
    let rest = if n > MAX_STRINGS {
        Some(counted("… ", n - MAX_STRINGS, " more"))
    } else {
        None
    };
    StringsView::Many { heading, lines, rest }
}

// ---------------------------------------------------------------------------------------------
// Comparing two PVs
// ---------------------------------------------------------------------------------------------

/// What the plot of one PV against the other shows.
#[derive(Debug)]
pub enum XyStatus {
    /// The pairing is not built yet for this selection.
    Stale,
    /// There are no pairs, for this reason.
    Impossible(String),
    /// The plot, with a note above it and the name of its points.
    Ready { note: String, name: String },
}

/// What the plot of one PV against the other shows, where `cache` is the pairing at hand and
/// `key` the selection that it should be of.
pub fn xy_status(cache: &Option<XyCache>, key: (Sel, Sel, bool)) -> (r: XyStatus)
    ensures
        match *cache {
            Some(c) => if c.key != key {
                r is Stale
            } else if c.points@.len() == 0 {
                r matches XyStatus::Impossible(why) && why@ == c.paired_by@
            } else {
                r matches XyStatus::Ready { note, name } && note@ == decimal(c.n_pairs as nat)
                    + " pairs — "@ + c.paired_by@ + (if c.points@.len() < c.n_pairs {
                    "; display decimated"@
                } else {
                    Seq::empty()
                }) && name@ == c.y_label@ + "  vs  "@ + c.x_label@
            },
            None => r is Stale,
        },
{
    match cache {
        Some(c) => if !same_key(c.key, key) {
            XyStatus::Stale
        } else if c.points.len() == 0 {
            XyStatus::Impossible(c.paired_by.clone())
        } else {
            let mut note = to_decimal(c.n_pairs as u64);
            note.append(" pairs — ");
            note.append(c.paired_by.as_str());
            let ghost plain = note@;
            if c.points.len() < c.n_pairs {
                note.append("; display decimated");
            } else {
                assert(plain + Seq::<char>::empty() =~= plain);
            }
            let mut name = c.y_label.clone();
            name.append("  vs  ");
            name.append(c.x_label.as_str());
            XyStatus::Ready { note, name }
        },
        None => XyStatus::Stale,
    }
}

/// Whether two pairings are of the same selection.
pub fn same_key(a: (Sel, Sel, bool), b: (Sel, Sel, bool)) -> (r: bool)
    ensures
        r == (a == b),
{
    (a.0).0 == (b.0).0 && (a.0).1 == (b.0).1 && (a.1).0 == (b.1).0 && (a.1).1 == (b.1).1 && a.2
        == b.2
}

/// The labels of the axes when two curves are overlaid.
pub fn overlay_labels(a: &Loaded, b: &Loaded, normalize: bool) -> (r: (String, String))
    ensures
        r.0@ == if a.x_label@ == b.x_label@ {
            a.x_label@
        } else {
            a.x_label@ + " / "@ + b.x_label@
        },
        r.1@ == if normalize {
            "normalized [0–1]"@
        } else if opt_text(a.units) is Some && opt_text(a.units) == opt_text(b.units) {
            opt_text(a.units)->0
        } else {
            Seq::empty()
        },
{
    let x_label = if same_text(a.x_label.as_str(), b.x_label.as_str()) {
        a.x_label.clone()
    } else {
        let mut s = a.x_label.clone();
        s.append(" / ");
        s.append(b.x_label.as_str());
        s
    };
    let y_label = if normalize {
        "normalized [0–1]".to_owned()
    } else {
        match (&a.units, &b.units) {
            (Some(u), Some(v)) => if same_text(u.as_str(), v.as_str()) {
                u.clone()
            } else {
                String::new()
            },
            _ => String::new(),
        }
    };
    (x_label, y_label)
}

/// The name of a curve in an overlay: the mark of the selection and the PV.
pub fn overlay_name(mark: &str, l: &Loaded) -> (s: String)
    ensures
        s@ == mark@ + " "@ + axis_label(l.label@, opt_text(l.units)),
{
    let mut s = mark.to_owned();
    s.append(" ");
    s.append(series_label(l).as_str());
    s
}

// ---------------------------------------------------------------------------------------------
// One PV across files
// ---------------------------------------------------------------------------------------------

/// The number of a dataset that holds one.
pub open spec fn scalar_in(v: ValueView) -> Option<Real> {
    match v {
        ValueView::Numeric { data, .. } => if data.len() == 1 {
            Some(data[0])
        } else {
            None
        },
        _ => None,
    }
}

/// The number of a file's entry, where it holds one.
pub open spec fn entry_scalar(e: Option<Loaded>) -> Option<Real> {
    match e {
        Some(l) => scalar_in(l.value@),
        None => None,
    }
}

/// What differences are taken from: the number of the first file that has the PV as a single
/// number.
pub open spec fn reference_of(multi: Seq<Option<Loaded>>) -> Option<Real>
    decreases multi.len(),
{
    if multi.len() == 0 {
        None
    } else {
        match entry_scalar(multi[0]) {
            Some(v) => Some(v),
            None => reference_of(multi.skip(1)),
        }
    }
}

/// Every number in a file has something to take its difference from: the number of the first
/// file that has one.
pub proof fn numbers_have_a_reference(multi: Seq<Option<Loaded>>, i: int)
    requires
        0 <= i < multi.len(),
        entry_scalar(multi[i]) is Some,
    ensures
        reference_of(multi) is Some,
        (forall|j: int| 0 <= j < i ==> entry_scalar(#[trigger] multi[j]) is None) ==> reference_of(
            multi,
        ) == entry_scalar(multi[i]),
    decreases multi.len(),
{
    if i > 0 {
        let rest = multi.skip(1);
        assert(rest[i - 1] == multi[i]);
        numbers_have_a_reference(rest, i - 1);
        if forall|j: int| 0 <= j < i ==> entry_scalar(#[trigger] multi[j]) is None {
            assert forall|j: int| 0 <= j < i - 1 implies entry_scalar(#[trigger] rest[j]) is None by {
                assert(rest[j] == multi[j + 1]);
            }
        }
    }
}

/// The number of a dataset that holds one.
pub fn scalar(l: &Loaded) -> (r: Option<Real>)
    ensures
        r == scalar_in(l.value@),
{
    match &l.value {
        Value::Numeric { data, .. } => if data.len() == 1 {
            Some(data[0])
        } else {
            None
        },
        _ => None,
    }
}

/// What differences are taken from: the number of the first file that has the PV as a single
/// number.
pub fn reference(multi: &Vec<Option<Loaded>>) -> (r: Option<Real>)
    ensures
        r == reference_of(multi@),
{
    let mut i: usize = 0;
    assert(multi@.skip(0) =~= multi@);
    while i < multi.len()
        invariant
            i <= multi.len(),
            reference_of(multi@) == reference_of(multi@.skip(i as int)),
        decreases multi.len() - i,
    {
        assert(multi@.skip(i as int)[0] == multi@[i as int]);
        assert(multi@.skip(i as int).skip(1) =~= multi@.skip(i + 1));
        if let Some(l) = &multi[i] {
            let v = scalar(l);
            if v.is_some() {
                return v;
            }
        }
        i = i + 1;
    }
    None
}

/// A row of the table of a PV across files.
#[derive(Debug)]
pub struct MultiRow {
    /// The number and the name of the file.
    pub title: String,
    /// The value of the PV; none where the file does not have it.
    pub summary: Option<String>,
    /// Whether the difference from the reference is shown.
    pub delta: bool,
}

/// The title of the file at position `i`.
pub open spec fn file_title(i: int, label: Seq<char>) -> Seq<char> {
    "["@ + decimal((i + 1) as nat) + "] "@ + label
}

/// The title of the file at position `i`.
pub fn title_of_file(i: usize, label: &str) -> (s: String)
    requires
        i < usize::MAX,
    ensures
        s@ == file_title(i as int, label@),
{
    let mut s = counted("[", i + 1, "] ");
    s.append(label);
    s
}

/// The rows of the table of a PV across files: for each file that has a label its value in short,
/// and whether it has a difference. A value of strings that has a label has at least one.
pub fn multi_rows(
    multi: &Vec<Option<Loaded>>,
    labels: &Vec<String>,
    texts: &Vec<NumberTexts>,
) -> (rows: Vec<MultiRow>)
    requires
        texts@.len() == multi@.len(),
        forall|i: int|
            0 <= i < multi@.len() && i < labels@.len() ==> (#[trigger] multi@[i] matches Some(l) ==> (
            l.value@ matches ValueView::Strings(s) ==> s.len() > 0)),
    ensures
        rows@.len() == if multi@.len() <= labels@.len() {
            multi@.len()
        } else {
            labels@.len()
        },
        forall|i: int|
            0 <= i < rows@.len() ==> {
                let row = #[trigger] rows@[i];
                &&& row.title@ == file_title(i, labels@[i]@)
                &&& opt_text(row.summary) == match multi@[i] {
                    Some(l) => Some(
                        summary_text(l.value@, opt_text(l.units), l.stats, texts@[i]),
                    ),
                    None => None,
                }
                &&& row.delta == (reference_of(multi@) is Some && entry_scalar(multi@[i]) is Some)
            },
{
    let has_reference = reference(multi).is_some();
    let mut rows: Vec<MultiRow> = Vec::new();
    let mut i: usize = 0;
    while i < multi.len() && i < labels.len()
        invariant
            i <= multi.len(),
            i <= labels.len(),
            texts@.len() == multi@.len(),
            has_reference == (reference_of(multi@) is Some),
            forall|i: int|
                0 <= i < multi@.len() && i < labels@.len() ==> (#[trigger] multi@[i] matches Some(l) ==> (
                l.value@ matches ValueView::Strings(s) ==> s.len() > 0)),
            rows@.len() == i,
            forall|j: int|
                0 <= j < i ==> {
                    let row = #[trigger] rows@[j];
                    &&& row.title@ == file_title(j, labels@[j]@)
                    &&& opt_text(row.summary) == match multi@[j] {
                        Some(l) => Some(
                            summary_text(l.value@, opt_text(l.units), l.stats, texts@[j]),
                        ),
                        None => None,
                    }
                    &&& row.delta == (reference_of(multi@) is Some && entry_scalar(
                        multi@[j],
                    ) is Some)
                },
        decreases multi.len() - i,
    {
        let title = title_of_file(i, labels[i].as_str());
        let row = match &multi[i] {
            Some(l) => MultiRow {
                title,
                summary: Some(value_summary(l, &texts[i])),
                delta: has_reference && scalar(l).is_some(),
            },
            None => MultiRow { title, summary: None, delta: false },
        };
        rows.push(row);
        i = i + 1;
    }
    rows
}

/// The difference from the reference: `=` for none, else its text.
pub fn delta_text(d: Real, text: &str) -> (s: String)
    ensures
        s@ == if d.magnitude() == 0 {
            "="@
        } else {
            "Δ = "@ + text@
        },
{
    if d.is_zero() {
        "=".to_owned()
    } else {
        message("Δ = ", text)
    }
}

/// The files where the PV is a series, in order.
pub open spec fn plotted_files(multi: Seq<Option<Loaded>>) -> Seq<usize>
    decreases multi.len(),
{
    if multi.len() == 0 {
        Seq::empty()
    } else {
        let before = plotted_files(multi.drop_last());
        match multi.last() {
            Some(l) => if l.is_plottable() {
                before.push((multi.len() - 1) as usize)
            } else {
                before
            },
            None => before,
        }
    }
}

/// The files where the PV is a single number, in order.
pub open spec fn scalar_files(multi: Seq<Option<Loaded>>) -> Seq<usize>
    decreases multi.len(),
{
    if multi.len() == 0 {
        Seq::empty()
    } else {
        let before = scalar_files(multi.drop_last());
        if entry_scalar(multi.last()) is Some {
            before.push((multi.len() - 1) as usize)
        } else {
            before
        }
    }
}

/// The plotted files are files where the PV is a series, and all of them.
pub proof fn plotted_files_are_plottable(multi: Seq<Option<Loaded>>)
    requires
        multi.len() <= usize::MAX,
    ensures
        forall|k: int|
            0 <= k < plotted_files(multi).len() ==> {
                let f = #[trigger] plotted_files(multi)[k];
                f < multi.len() && multi[f as int] is Some && multi[f as int]->0.is_plottable()
            },
        forall|f: int|
            0 <= f < multi.len() && multi[f] is Some && (#[trigger] multi[f])->0.is_plottable()
                ==> plotted_files(multi).contains(f as usize),
    decreases multi.len(),
{
    if multi.len() > 0 {
        let init = multi.drop_last();
        plotted_files_are_plottable(init);
        let before = plotted_files(init);
        let now = plotted_files(multi);
        assert forall|k: int| 0 <= k < now.len() implies {
            let f = #[trigger] now[k];
            f < multi.len() && multi[f as int] is Some && multi[f as int]->0.is_plottable()
        } by {
            if k < before.len() {
                assert(now[k] == before[k]);
                assert(init[before[k] as int] == multi[before[k] as int]);
            }
        }
        assert forall|f: int|
            0 <= f < multi.len() && multi[f] is Some && (
            #[trigger] multi[f])->0.is_plottable() implies now.contains(f as usize) by {
            if f < init.len() {
                assert(init[f] == multi[f]);
                assert(before.contains(f as usize));
                let k = choose|k: int| 0 <= k < before.len() && before[k] == f as usize;
                assert(now[k] == f as usize);
            } else {
                assert(now[now.len() - 1] == f as usize);
            }
        }
    }
}

proof fn scalar_files_are_scalar(multi: Seq<Option<Loaded>>)
    requires
        multi.len() <= usize::MAX,
    ensures
        forall|k: int|
            0 <= k < scalar_files(multi).len() ==> {
                let f = #[trigger] scalar_files(multi)[k];
                f < multi.len() && entry_scalar(multi[f as int]) is Some
            },
    decreases multi.len(),
{
    if multi.len() > 0 {
        let init = multi.drop_last();
        scalar_files_are_scalar(init);
        let before = scalar_files(init);
        let now = scalar_files(multi);
        assert forall|k: int| 0 <= k < now.len() implies {
            let f = #[trigger] now[k];
            f < multi.len() && entry_scalar(multi[f as int]) is Some
        } by {
            if k < before.len() {
                assert(now[k] == before[k]);
                assert(init[before[k] as int] == multi[before[k] as int]);
            }
        }
    }
}

/// Whether every position is below `n`.
pub open spec fn all_below(s: Seq<usize>, n: nat) -> bool {
    forall|k: int| 0 <= k < s.len() ==> #[trigger] s[k] < n
}

/// The texts without those that repeat the one before them.
pub open spec fn without_repeats(s: Seq<Seq<char>>) -> Seq<Seq<char>>
    decreases s.len(),
{
    if s.len() == 0 {
        Seq::empty()
    } else {
        let before = without_repeats(s.drop_last());
        if s.len() > 1 && s[s.len() - 2] == s.last() {
            before
        } else {
            before.push(s.last())
        }
    }
}

/// The x axis labels of the plotted files.
pub open spec fn plotted_x_labels(multi: Seq<Option<Loaded>>, files: Seq<usize>) -> Seq<Seq<char>> {
    Seq::new(files.len(), |k: int| multi[files[k] as int]->0.x_label@)
}

/// A curve of a PV across files.
#[derive(Debug)]
pub struct Curve {
    /// The file that it is of.
    pub file: usize,
    pub name: String,
    /// The positions of its series that are plotted.
    pub positions: Vec<usize>,
}

/// The curves of a PV across files.
#[derive(Debug)]
pub struct CurvePlot {
    pub x_label: String,
    pub y_label: String,
    /// Whether the curves are scaled to the range from 0 to 1.
    pub normalized: bool,
    /// Whether scaling can be chosen.
    pub chooser: bool,
    /// What is said where there are too many curves for a legend.
    pub note: Option<String>,
    /// Whether there is a legend.
    pub legend: bool,
    pub curves: Vec<Curve>,
}

/// The numbers of a PV across files, one point for each file.
#[derive(Debug)]
pub struct RunPlot {
    /// The run number or the number of the file, and the file that the value is of.
    pub points: Vec<(u64, usize)>,
    /// Whether the points are at run numbers.
    pub by_run: bool,
    pub y_label: String,
}

/// What is plotted of a PV across files.
#[derive(Debug)]
pub enum MultiPlot {
    Nothing,
    Curves(CurvePlot),
    Runs(RunPlot),
}

/// At most this many curves have a legend.
pub const MAX_LEGEND: usize = 20;

/// How many points each of `n` curves may have: the total is capped so that many overlaid runs
/// still redraw fast.
pub open spec fn points_per_curve(n: nat) -> nat {
    if 200_000nat / n < 1_000 {
        1_000
    } else {
        200_000nat / n
    }
}

/// The positions plotted of file `f` when `n` curves are overlaid.
pub open spec fn curve_positions(multi: Seq<Option<Loaded>>, f: int, n: nat) -> Seq<usize> {
    capped(multi[f]->0.points@, points_per_curve(n))
}

/// No curve has more points than its share, and where there are at most two hundred curves all
/// together have no more than two hundred thousand.
pub proof fn curves_are_capped(multi: Seq<Option<Loaded>>, f: int, n: nat)
    requires
        n > 0,
    ensures
        curve_positions(multi, f, n).len() <= points_per_curve(n),
        n <= 200 ==> n * points_per_curve(n) <= 200_000,
{
    assert(200_000nat / n >= 0);
    capped_is_few(multi[f]->0.points@, points_per_curve(n));
    if n <= 200 {
        assert(200_000nat / n >= 1_000) by (nonlinear_arith)
            requires
                0 < n <= 200,
        ;
        assert(n * (200_000nat / n) <= 200_000) by (nonlinear_arith)
            requires
                n > 0,
        ;
    }
}

/// Whether `p` shows the curves of the files where the PV is a series.
pub open spec fn is_curve_plot(
    multi: Seq<Option<Loaded>>,
    labels: Seq<Seq<char>>,
    normalize: bool,
    p: CurvePlot,
) -> bool {
    let files = plotted_files(multi);
    let n = files.len();
    let first = multi[files[0] as int]->0;
    &&& p.x_label@ == joined(without_repeats(plotted_x_labels(multi, files)), " / "@)
    &&& p.normalized == (normalize && n > 1)
    &&& p.y_label@ == if p.normalized {
        "normalized [0–1]"@
    } else {
        axis_label(first.label@, opt_text(first.units))
    }
    &&& p.chooser == (n > 1)
    &&& p.legend == (n <= MAX_LEGEND)
    &&& opt_text(p.note) == if n > MAX_LEGEND {
        Some(decimal(n) + " series — legend hidden"@)
    } else {
        None
    }
    &&& p.curves@.len() == n
    &&& forall|k: int|
        0 <= k < n ==> {
            let c = #[trigger] p.curves@[k];
            &&& c.file == files[k]
            &&& c.name@ == file_title(files[k] as int, labels[files[k] as int])
            &&& c.positions@ == curve_positions(multi, files[k] as int, n)
        }
}

/// The run numbers that the names of the files end with.
pub open spec fn runs_of_files(labels: Seq<Seq<char>>, files: Seq<usize>) -> Seq<Option<u64>> {
    Seq::new(files.len(), |k: int| trailing_number_of(labels[files[k] as int]))
}

/// Whether every file has a run number, and no two the same.
pub open spec fn runs_differ(runs: Seq<Option<u64>>) -> bool {
    &&& forall|k: int| 0 <= k < runs.len() ==> #[trigger] runs[k] is Some
    &&& forall|k: int, l: int| 0 <= k < l < runs.len() ==> runs[k] != runs[l]
}

/// Whether `p` shows the numbers of the PV against the run numbers, or against the position of
/// the file where names carry no run number of their own.
pub open spec fn is_run_plot(
    multi: Seq<Option<Loaded>>,
    labels: Seq<Seq<char>>,
    p: RunPlot,
) -> bool {
    let files = scalar_files(multi);
    let runs = runs_of_files(labels, files);
    let first = multi[files[0] as int]->0;
    &&& p.by_run == runs_differ(runs)
    &&& p.y_label@ == axis_label(first.label@, opt_text(first.units))
    &&& p.points@.len() == files.len()
    &&& forall|k: int|
        0 <= k < files.len() ==> {
            let point = #[trigger] p.points@[k];
            &&& point.1 == files[k]
            &&& point.0 == if p.by_run {
                runs[k]->0 as int
            } else {
                files[k] + 1
            }
        }
}

/// Whether `p` is what is plotted: the curves where any file has the PV as a series, else the
/// numbers where at least three files have one, else nothing.
pub open spec fn is_multi_plot(
    multi: Seq<Option<Loaded>>,
    labels: Seq<Seq<char>>,
    normalize: bool,
    p: MultiPlot,
) -> bool {
    if plotted_files(multi).len() > 0 {
        p matches MultiPlot::Curves(c) && is_curve_plot(multi, labels, normalize, c)
    } else if scalar_files(multi).len() >= 3 {
        p matches MultiPlot::Runs(r) && is_run_plot(multi, labels, r)
    } else {
        p is Nothing
    }
}

/// Whether file `f` is plotted: as a curve where any file has one, else as a point where at least
/// three files have a number.
pub open spec fn is_plotted(multi: Seq<Option<Loaded>>, f: int) -> bool {
    if plotted_files(multi).len() > 0 {
        multi[f] matches Some(l) && l.is_plottable()
    } else {
        scalar_files(multi).len() >= 3 && entry_scalar(multi[f]) is Some
    }
}

/// The files where the PV is a series, and those where it is a single number.
fn sort_files(multi: &Vec<Option<Loaded>>) -> (r: (Vec<usize>, Vec<usize>))
    ensures
        r.0@ == plotted_files(multi@),
        r.1@ == scalar_files(multi@),
{
    let mut plotted: Vec<usize> = Vec::new();
    let mut scalars: Vec<usize> = Vec::new();
    let mut i: usize = 0;
    while i < multi.len()
        invariant
            i <= multi.len(),
            plotted@ == plotted_files(multi@.take(i as int)),
            scalars@ == scalar_files(multi@.take(i as int)),
        decreases multi.len() - i,
    {
        assert(multi@.take(i + 1).drop_last() =~= multi@.take(i as int));
        assert(multi@.take(i + 1).last() == multi@[i as int]);
        if let Some(l) = &multi[i] {
            if l.plottable() {
                plotted.push(i);
            }
            if scalar(l).is_some() {
                scalars.push(i);
            }
        }
        i = i + 1;
    }
    assert(multi@.take(i as int) =~= multi@);
    (plotted, scalars)
}

/// The x axis labels of the plotted files, each once in a row.
fn x_labels(multi: &Vec<Option<Loaded>>, files: &Vec<usize>) -> (r: Vec<String>)
    requires
        files@ == plotted_files(multi@),
    ensures
        views(r@) == without_repeats(plotted_x_labels(multi@, files@)),
{
    proof {
        assert(multi@.len() == multi.len());
        plotted_files_are_plottable(multi@);
    }
    let ghost all = plotted_x_labels(multi@, files@);
    let mut r: Vec<String> = Vec::new();
    let mut last: Option<String> = None;
    let mut k: usize = 0;
    while k < files.len()
        invariant
            k <= files.len(),
            files@ == plotted_files(multi@),
            forall|k: int|
                0 <= k < plotted_files(multi@).len() ==> {
                    let f = #[trigger] plotted_files(multi@)[k];
                    f < multi@.len() && multi@[f as int] is Some
                        && multi@[f as int]->0.is_plottable()
                },
            all == plotted_x_labels(multi@, files@),
            views(r@) == without_repeats(all.take(k as int)),
            match last {
                Some(s) => k > 0 && s@ == all[k - 1],
                None => k == 0,
            },
        decreases files.len() - k,
    {
        assert(plotted_files(multi@)[k as int] == files@[k as int]);
        let ghost now = all.take(k + 1);
        assert(now.drop_last() =~= all.take(k as int));
        let ghost before = views(r@);
        if let Some(l) = &multi[files[k]] {
            let repeats = match &last {
                Some(s) => same_text(s.as_str(), l.x_label.as_str()),
                None => false,
            };
            assert(now.last() == l.x_label@);
            assert(k > 0 ==> now[now.len() - 2] == all[k - 1]);
            if !repeats {
                r.push(l.x_label.clone());
                assert(views(r@) =~= before.push(l.x_label@));
            }
            last = Some(l.x_label.clone());
        }
        k = k + 1;
    }
    assert(all.take(k as int) =~= all);
    r
}

/// The curves of the files where the PV is a series.
fn curve_plot(
    multi: &Vec<Option<Loaded>>,
    labels: &Vec<String>,
    normalize: bool,
    files: &Vec<usize>,
) -> (p: CurvePlot)
    requires
        all_below(files@, labels@.len()),
        files@ == plotted_files(multi@),
        files@.len() > 0,
    ensures
        is_curve_plot(multi@, views(labels@), normalize, p),
{
    proof {
        assert(multi@.len() == multi.len());
        plotted_files_are_plottable(multi@);
        assert(plotted_files(multi@)[0] == files@[0]);
    }
    let n: usize = files.len();
    let ghost names = views(labels@);
    let x_label = join(&x_labels(multi, files), " / ");
    let normalized = normalize && n > 1;
    let mut y_label = "normalized [0–1]".to_owned();
    if !normalized {
        if let Some(l) = &multi[files[0]] {
            y_label = series_label(l);
        }
    }
    let share: usize = 200_000 / n;
    let per_line: usize = if share < 1_000 {
        1_000
    } else {
        share
    };
    let note = if n > MAX_LEGEND {
        let mut s = to_decimal(n as u64);
        s.append(" series — legend hidden");
        Some(s)
    } else {
        None
    };
    let mut curves: Vec<Curve> = Vec::new();
    let mut k: usize = 0;
    while k < n
        invariant
            k <= n,
            n == files.len(),
            n > 0,
            per_line == points_per_curve(n as nat),
            per_line > 0,
            names == views(labels@),
            all_below(files@, labels@.len()),
            multi@.len() == multi.len(),
            files@ == plotted_files(multi@),
            forall|k: int|
                0 <= k < plotted_files(multi@).len() ==> {
                    let f = #[trigger] plotted_files(multi@)[k];
                    f < multi@.len() && multi@[f as int] is Some
                        && multi@[f as int]->0.is_plottable()
                },
            curves@.len() == k,
            forall|j: int|
                0 <= j < k ==> {
                    let c = #[trigger] curves@[j];
                    &&& c.file == files@[j]
                    &&& c.name@ == file_title(files@[j] as int, names[files@[j] as int])
                    &&& c.positions@ == curve_positions(multi@, files@[j] as int, n as nat)
                },
        decreases n - k,
    {
        assert(plotted_files(multi@)[k as int] == files@[k as int]);
        let f: usize = files[k];
        if let Some(l) = &multi[f] {
            let positions = l.points.clone();
            assert(positions@ =~= l.points@);
            assert(names[f as int] == labels@[f as int]@);
            curves.push(
                Curve {
                    file: f,
                    name: title_of_file(f, labels[f].as_str()),
                    positions: stride_cap(positions, per_line),
                },
            );
        }
        k = k + 1;
    }
    CurvePlot { x_label, y_label, normalized, chooser: n > 1, note, legend: n <= MAX_LEGEND, curves }
}

/// Whether every file has a run number, and no two the same.
fn all_differ(runs: &Vec<Option<u64>>) -> (r: bool)
    ensures
        r == runs_differ(runs@),
{
    let mut k: usize = 0;
    while k < runs.len()
        invariant
            k <= runs.len(),
            forall|j: int| 0 <= j < k ==> #[trigger] runs@[j] is Some,
            forall|i: int, j: int| 0 <= i < j < k ==> runs@[i] != runs@[j],
        decreases runs.len() - k,
    {
        match runs[k] {
            None => {
                assert(runs@[k as int] is None);
                return false;
            },
            Some(run) => {
                let mut j: usize = 0;
                while j < k
                    invariant
                        j <= k < runs.len(),
                        runs@[k as int] == Some(run),
                        forall|i: int| 0 <= i < j ==> runs@[i] != runs@[k as int],
                    decreases k - j,
                {
                    if let Some(other) = runs[j] {
                        if other == run {
                            assert(runs@[j as int] == runs@[k as int]);
                            return false;
                        }
                    }
                    j = j + 1;
                }
            },
        }
        k = k + 1;
    }
    true
}

/// The numbers of the PV against the run numbers, or against the position of the file.
fn run_plot(multi: &Vec<Option<Loaded>>, labels: &Vec<String>, files: &Vec<usize>) -> (p: RunPlot)
    requires
        all_below(files@, labels@.len()),
        files@ == scalar_files(multi@),
        files@.len() > 0,
    ensures
        is_run_plot(multi@, views(labels@), p),
{
    let ghost names = views(labels@);
    proof {
        assert(multi@.len() == multi.len());
        scalar_files_are_scalar(multi@);
        assert(scalar_files(multi@)[0] == files@[0]);
    }
    let ghost want = runs_of_files(names, files@);
    let mut runs: Vec<Option<u64>> = Vec::new();
    let mut k: usize = 0;
    while k < files.len()
        invariant
            k <= files.len(),
            names == views(labels@),
            all_below(files@, labels@.len()),
            files@ == scalar_files(multi@),
            want == runs_of_files(names, files@),
            forall|k: int|
                0 <= k < scalar_files(multi@).len() ==> {
                    let f = #[trigger] scalar_files(multi@)[k];
                    f < multi@.len() && entry_scalar(multi@[f as int]) is Some
                },
            runs@.len() == k,
            forall|j: int| 0 <= j < k ==> #[trigger] runs@[j] == want[j],
        decreases files.len() - k,
    {
        assert(scalar_files(multi@)[k as int] == files@[k as int]);
        let f: usize = files[k];
        assert(names[f as int] == labels@[f as int]@);
        runs.push(trailing_number(labels[f].as_str()));
        k = k + 1;
    }
    assert(runs@ =~= want);
    let by_run = all_differ(&runs);
    let mut points: Vec<(u64, usize)> = Vec::new();
    let mut i: usize = 0;
    while i < files.len()
        invariant
            i <= files.len(),
            files@ == scalar_files(multi@),
            multi@.len() == multi.len(),
            forall|k: int|
                0 <= k < scalar_files(multi@).len() ==> {
                    let f = #[trigger] scalar_files(multi@)[k];
                    f < multi@.len() && entry_scalar(multi@[f as int]) is Some
                },
            runs@.len() == files@.len(),
            by_run == runs_differ(runs@),
            points@.len() == i,
            forall|k: int|
                0 <= k < i ==> {
                    let point = #[trigger] points@[k];
                    &&& point.1 == files@[k]
                    &&& point.0 == if by_run {
                        runs@[k]->0 as int
                    } else {
                        files@[k] + 1
                    }
                },
        decreases files.len() - i,
    {
        assert(scalar_files(multi@)[i as int] == files@[i as int]);
        let f: usize = files[i];
        let mut x: u64 = f as u64;
        if by_run {
            assert(runs@[i as int] is Some);
            if let Some(run) = runs[i] {
                x = run;
            }
        } else {
            assert(f < multi.len());
            x = (f + 1) as u64;
        }
        points.push((x, f));
        i = i + 1;
    }
    let mut y_label = String::new();
    if let Some(l) = &multi[files[0]] {
        y_label = series_label(l);
    }
    RunPlot { points, by_run, y_label }
}

/// What is plotted of a PV across files: every file's curve in one plot, or its value against
/// the run number (falling back to the file position when names carry no number).
pub fn multi_plot(
    multi: &Vec<Option<Loaded>>,
    labels: &Vec<String>,
    normalize: bool,
) -> (p: MultiPlot)
    requires
        forall|f: int|
            0 <= f < multi@.len() && #[trigger] is_plotted(multi@, f) ==> f < labels@.len(),
    ensures
        is_multi_plot(multi@, views(labels@), normalize, p),
{
    let (plotted, scalars) = sort_files(multi);
    proof {
        assert(multi@.len() == multi.len());
        plotted_files_are_plottable(multi@);
        scalar_files_are_scalar(multi@);
        if plotted.len() > 0 {
            assert forall|k: int| 0 <= k < plotted@.len() implies #[trigger] plotted@[k]
                < labels@.len() by {
                let f = plotted_files(multi@)[k];
                assert(is_plotted(multi@, f as int));
            }
        } else if scalars.len() >= 3 {
            assert forall|k: int| 0 <= k < scalars@.len() implies #[trigger] scalars@[k]
                < labels@.len() by {
                let f = scalar_files(multi@)[k];
                assert(is_plotted(multi@, f as int));
            }
        }
    }
    if plotted.len() > 0 {
        MultiPlot::Curves(curve_plot(multi, labels, normalize, &plotted))
    } else if scalars.len() >= 3 {
        MultiPlot::Runs(run_plot(multi, labels, &scalars))
    } else {
        MultiPlot::Nothing
    }
}

// ---------------------------------------------------------------------------------------------
// Laws
// ---------------------------------------------------------------------------------------------

/// Two selected PVs that can both be plotted are compared; where one cannot, that is said, and the
/// first is shown on its own. A single one is shown across files where several are open.
pub proof fn two_series_are_compared(l: Loaded, second: Option<Loaded>, many: bool)
    ensures
        second matches Some(l2) ==> (content_of(l, second, many).body == Body::Compare <==> l.y@.len()
            > 1 && l2.y@.len() > 1),
        second matches Some(l2) ==> (content_of(l, second, many).warn_second <==> !(l.y@.len() > 1
            && l2.y@.len() > 1)),
        second is None ==> !content_of(l, second, many).warn_second,
        second is None ==> (content_of(l, second, many).body == Body::AcrossFiles <==> many),
        second is Some ==> content_of(l, second, many).body != Body::AcrossFiles,
{
}

/// On its own a value is shown as what it is: a single number as text, several as a curve where
/// there are points to plot and else as their first, strings as strings.
pub proof fn values_are_shown_as_what_they_are(l: Loaded)
    ensures
        match l.value {
            Value::Empty => content_of(l, None, false).body == Body::Empty,
            Value::Unsupported(_) => content_of(l, None, false).body == Body::Unsupported,
            Value::Strings(_) => content_of(l, None, false).body == Body::Strings,
            Value::Numeric { data, .. } => {
                &&& data@.len() == 1 ==> content_of(l, None, false).body == Body::Scalar
                &&& data@.len() != 1 && l.points@.len() > 0 ==> content_of(l, None, false).body
                    == Body::Plot
                &&& data@.len() != 1 && l.points@.len() == 0 ==> content_of(l, None, false).body
                    == Body::Array
            },
        },
{
}

/// A file has a single number exactly where the PV is there and is one number.
pub proof fn single_numbers_are_scalars(l: Loaded)
    ensures
        entry_scalar(None) is None,
        match l.value {
            Value::Numeric { data, .. } => if data@.len() == 1 {
                entry_scalar(Some(l)) == Some(data@[0])
            } else {
                entry_scalar(Some(l)) is None
            },
            _ => entry_scalar(Some(l)) is None,
        },
{
}

/// Without a single number in any file there is nothing to take differences from.
pub proof fn no_number_is_no_reference(multi: Seq<Option<Loaded>>)
    requires
        forall|i: int| 0 <= i < multi.len() ==> entry_scalar(#[trigger] multi[i]) is None,
    ensures
        reference_of(multi) is None,
    decreases multi.len(),
{
    if multi.len() > 0 {
        let rest = multi.skip(1);
        assert(entry_scalar(multi[0]) is None);
        assert forall|i: int| 0 <= i < rest.len() implies entry_scalar(#[trigger] rest[i]) is None by {
            assert(rest[i] == multi[i + 1]);
        }
        no_number_is_no_reference(rest);
    }
}

/// The files with a series, and those with a single number, are listed in order, each once, and
/// none is left out.
pub proof fn files_are_listed_in_order(multi: Seq<Option<Loaded>>)
    requires
        multi.len() <= usize::MAX,
    ensures
        forall|k: int, l: int|
            0 <= k < l < plotted_files(multi).len() ==> plotted_files(multi)[k] < plotted_files(
                multi,
            )[l],
        forall|k: int, l: int|
            0 <= k < l < scalar_files(multi).len() ==> scalar_files(multi)[k] < scalar_files(multi)[l],
        forall|f: usize| #[trigger]
            plotted_files(multi).contains(f) <==> f < multi.len() && (multi[f as int] matches Some(l)
                && l.y@.len() > 1),
        forall|f: usize| #[trigger]
            scalar_files(multi).contains(f) <==> f < multi.len() && entry_scalar(
                multi[f as int],
            ) is Some,
    decreases multi.len(),
{
    if multi.len() > 0 {
        let init = multi.drop_last();
        let n = (multi.len() - 1) as usize;
        files_are_listed_in_order(init);
        let (p, s) = (plotted_files(init), scalar_files(init));
        let (pp, ss) = (plotted_files(multi), scalar_files(multi));
        assert forall|k: int| 0 <= k < p.len() implies #[trigger] p[k] < n by {
            assert(p.contains(p[k]));
        }
        assert forall|k: int| 0 <= k < s.len() implies #[trigger] s[k] < n by {
            assert(s.contains(s[k]));
        }
        assert forall|f: usize| #[trigger]
            pp.contains(f) <==> f < multi.len() && (multi[f as int] matches Some(l) && l.y@.len()
                > 1) by {
            if f < n {
                assert(init[f as int] == multi[f as int]);
            }
            if p.contains(f) {
                let k = choose|k: int| 0 <= k < p.len() && p[k] == f;
                assert(pp[k] == f);
            }
            if pp.contains(f) {
                let k = choose|k: int| 0 <= k < pp.len() && pp[k] == f;
                if k < p.len() {
                    assert(p[k] == f);
                    assert(p.contains(f));
                }
            }
            if f == n && pp.len() > p.len() {
                assert(pp[p.len() as int] == n);
            }
        }
        assert forall|f: usize| #[trigger]
            ss.contains(f) <==> f < multi.len() && entry_scalar(multi[f as int]) is Some by {
            if f < n {
                assert(init[f as int] == multi[f as int]);
            }
            if s.contains(f) {
                let k = choose|k: int| 0 <= k < s.len() && s[k] == f;
                assert(ss[k] == f);
            }
            if ss.contains(f) {
                let k = choose|k: int| 0 <= k < ss.len() && ss[k] == f;
                if k < s.len() {
                    assert(s[k] == f);
                    assert(s.contains(f));
                }
            }
            if f == n && ss.len() > s.len() {
                assert(ss[s.len() as int] == n);
            }
        }
    }
}

/// A PV that is a series in any file is plotted as curves; else, where it is a single number in at
/// least three, as points; else not at all.
pub proof fn plots_go_by_what_the_files_hold(
    multi: Seq<Option<Loaded>>,
    labels: Seq<Seq<char>>,
    normalize: bool,
    p: MultiPlot,
)
    requires
        multi.len() <= usize::MAX,
        is_multi_plot(multi, labels, normalize, p),
    ensures
        p is Curves <==> exists|f: int|
            0 <= f < multi.len() && (#[trigger] multi[f] matches Some(l) && l.y@.len() > 1),
        !(p is Curves) ==> (p is Runs <==> exists|f: int, g: int, h: int|
            0 <= f < g < h < multi.len() && entry_scalar(#[trigger] multi[f]) is Some && entry_scalar(
                #[trigger] multi[g],
            ) is Some && entry_scalar(#[trigger] multi[h]) is Some),
{
    files_are_listed_in_order(multi);
    let (c, s) = (plotted_files(multi), scalar_files(multi));
    if c.len() > 0 {
        assert(c.contains(c[0]));
        assert(multi[c[0] as int] matches Some(l) && l.y@.len() > 1);
    }
    if exists|f: int| 0 <= f < multi.len() && (#[trigger] multi[f] matches Some(l) && l.y@.len() > 1) {
        let f = choose|f: int|
            0 <= f < multi.len() && (#[trigger] multi[f] matches Some(l) && l.y@.len() > 1);
        assert(c.contains(f as usize));
    }
    if s.len() >= 3 {
        assert(s.contains(s[0]) && s.contains(s[1]) && s.contains(s[2]));
        assert(s[0] < s[1] < s[2]);
        assert(entry_scalar(multi[s[0] as int]) is Some);
        assert(entry_scalar(multi[s[1] as int]) is Some);
        assert(entry_scalar(multi[s[2] as int]) is Some);
    }
    if exists|f: int, g: int, h: int|
        0 <= f < g < h < multi.len() && entry_scalar(#[trigger] multi[f]) is Some && entry_scalar(
            #[trigger] multi[g],
        ) is Some && entry_scalar(#[trigger] multi[h]) is Some {
        let (f, g, h) = choose|f: int, g: int, h: int|
            0 <= f < g < h < multi.len() && entry_scalar(#[trigger] multi[f]) is Some
                && entry_scalar(#[trigger] multi[g]) is Some && entry_scalar(
                #[trigger] multi[h],
            ) is Some;
        assert(s.contains(f as usize) && s.contains(g as usize) && s.contains(h as usize));
        let a = choose|k: int| 0 <= k < s.len() && s[k] == f as usize;
        let b = choose|k: int| 0 <= k < s.len() && s[k] == g as usize;
        let d = choose|k: int| 0 <= k < s.len() && s[k] == h as usize;
        assert(a != b && b != d && a != d);
    }
}

/// In a plot by run number every file with a single number has one point, at the number that its
/// own label ends with: a file labelled with something that ends in no digit and then a number
/// has its point at that number.
pub proof fn points_stand_at_their_own_runs(
    multi: Seq<Option<Loaded>>,
    labels: Seq<Seq<char>>,
    p: RunPlot,
    f: usize,
    prefix: Seq<char>,
    n: u64,
) -> (k: int)
    requires
        multi.len() <= usize::MAX,
        is_run_plot(multi, labels, p),
        p.by_run,
        f < multi.len(),
        f < labels.len(),
        entry_scalar(multi[f as int]) is Some,
        prefix.len() == 0 || !('0' <= prefix.last() <= '9'),
        labels[f as int] == prefix + decimal(n as nat),
    ensures
        0 <= k < p.points@.len(),
        p.points@[k] == (n, f),
        forall|l: int| 0 <= l < p.points@.len() && (#[trigger] p.points@[l]).1 == f ==> l == k,
{
    files_are_listed_in_order(multi);
    trailing_number_reads_back(prefix, n);
    let files = scalar_files(multi);
    assert(files.contains(f));
    let k = choose|k: int| 0 <= k < files.len() && files[k] == f;
    assert(runs_of_files(labels, files)[k] == Some(n));
    assert(p.points@[k].1 == files[k]);
    assert forall|l: int| 0 <= l < p.points@.len() && (#[trigger] p.points@[l]).1 == f implies l
        == k by {
        assert(files[l] == f);
        if l < k {
            assert(files[l] < files[k]);
        } else if k < l {
            assert(files[k] < files[l]);
        }
    }
    k
}

/// Every point of a plot of numbers is of a file with a single number: by run number it stands at
/// the number that the label of that file ends with, else at the position of the file, counted
/// from one. The points are in the order of the files.
pub proof fn points_are_of_their_files(
    multi: Seq<Option<Loaded>>,
    labels: Seq<Seq<char>>,
    p: RunPlot,
    k: int,
)
    requires
        multi.len() <= usize::MAX,
        is_run_plot(multi, labels, p),
        0 <= k < p.points@.len(),
    ensures
        ({
            let (x, f) = p.points@[k];
            &&& f < multi.len()
            &&& entry_scalar(multi[f as int]) is Some
            &&& p.by_run ==> Some(x) == trailing_number_of(labels[f as int])
            &&& !p.by_run ==> x == f + 1
        }),
        p.y_label@ == ({
            let first = multi[p.points@[0].1 as int]->0;
            match first.units {
                Some(u) => first.label@ + " ("@ + u@ + ")"@,
                None => first.label@,
            }
        }),
        forall|l: int| k < l < p.points@.len() ==> p.points@[k].1 < (#[trigger] p.points@[l]).1,
        forall|l: int|
            k < l < p.points@.len() && p.by_run ==> p.points@[k].0 != (#[trigger] p.points@[l]).0,
        forall|f: usize|
            f < multi.len() && entry_scalar(multi[f as int]) is Some ==> exists|l: int|
                0 <= l < p.points@.len() && (#[trigger] p.points@[l]).1 == f,
{
    files_are_listed_in_order(multi);
    let files = scalar_files(multi);
    let runs = runs_of_files(labels, files);
    assert(files.contains(files[k]));
    assert(p.points@[k].1 == files[k]);
    assert(p.points@[0].1 == files[0]);
    assert(runs[k] == trailing_number_of(labels[files[k] as int]));
    if p.by_run {
        assert(runs[k] is Some);
    }
    assert forall|l: int| k < l < p.points@.len() implies p.points@[k].1 < (
    #[trigger] p.points@[l]).1 by {
        assert(files[k] < files[l]);
    }
    assert forall|l: int| k < l < p.points@.len() && p.by_run implies p.points@[k].0 != (
    #[trigger] p.points@[l]).0 by {
        assert(runs[k] is Some && runs[l] is Some);
        assert(runs[k] != runs[l]);
    }
    assert forall|f: usize| f < multi.len() && entry_scalar(multi[f as int]) is Some implies exists|
        l: int,
    |
        0 <= l < p.points@.len() && (#[trigger] p.points@[l]).1 == f by {
        assert(files.contains(f));
        let l = choose|l: int| 0 <= l < files.len() && files[l] == f;
        assert(p.points@[l].1 == f);
    }
}

/// Numbers are plotted by run exactly where the label of every file with a single number ends with
/// a number, and no two of them with the same.
pub proof fn runs_count_where_all_labels_have_them(
    multi: Seq<Option<Loaded>>,
    labels: Seq<Seq<char>>,
    p: RunPlot,
)
    requires
        multi.len() <= usize::MAX,
        is_run_plot(multi, labels, p),
    ensures
        p.by_run <==> {
            &&& forall|f: int|
                0 <= f < multi.len() && entry_scalar(#[trigger] multi[f]) is Some
                    ==> trailing_number_of(labels[f]) is Some
            &&& forall|f: int, g: int|
                0 <= f < g < multi.len() && entry_scalar(#[trigger] multi[f]) is Some && entry_scalar(
                    #[trigger] multi[g],
                ) is Some ==> trailing_number_of(labels[f]) != trailing_number_of(labels[g])
        },
{
    files_are_listed_in_order(multi);
    let files = scalar_files(multi);
    let runs = runs_of_files(labels, files);
    if p.by_run {
        assert forall|f: int| 0 <= f < multi.len() && entry_scalar(#[trigger] multi[f]) is Some implies
            trailing_number_of(labels[f]) is Some by {
            assert(files.contains(f as usize));
            let k = choose|k: int| 0 <= k < files.len() && files[k] == f as usize;
            assert(runs[k] is Some);
        }
        assert forall|f: int, g: int|
            0 <= f < g < multi.len() && entry_scalar(#[trigger] multi[f]) is Some && entry_scalar(
                #[trigger] multi[g],
            ) is Some implies trailing_number_of(labels[f]) != trailing_number_of(labels[g]) by {
            assert(files.contains(f as usize) && files.contains(g as usize));
            let k = choose|k: int| 0 <= k < files.len() && files[k] == f as usize;
            let l = choose|l: int| 0 <= l < files.len() && files[l] == g as usize;
            if l < k {
                assert(files[l] < files[k]);
            }
            assert(runs[k] != runs[l]);
        }
    } else {
        assert(!runs_differ(runs));
        if forall|k: int| 0 <= k < runs.len() ==> #[trigger] runs[k] is Some {
            let (k, l) = choose|k: int, l: int| 0 <= k < l < runs.len() && runs[k] == runs[l];
            assert(files.contains(files[k]) && files.contains(files[l]));
            let (f, g) = (files[k] as int, files[l] as int);
            assert(f < g);
            assert(entry_scalar(multi[f]) is Some && entry_scalar(multi[g]) is Some);
        } else {
            let k = choose|k: int| 0 <= k < runs.len() && !(#[trigger] runs[k] is Some);
            assert(files.contains(files[k]));
            assert(entry_scalar(multi[files[k] as int]) is Some);
        }
    }
}

/// Every file with a series has one curve, under its number and its own label, with all the points
/// of its series where they are no more than its share, and else every n-th.
pub proof fn curves_are_of_their_files(
    multi: Seq<Option<Loaded>>,
    labels: Seq<Seq<char>>,
    normalize: bool,
    p: CurvePlot,
    f: usize,
) -> (at: (int, nat))
    requires
        multi.len() <= usize::MAX,
        is_curve_plot(multi, labels, normalize, p),
        f < multi.len(),
        multi[f as int] matches Some(l) && l.y@.len() > 1,
    ensures
        0 <= at.0 < p.curves@.len(),
        p.curves@[at.0].file == f,
        p.curves@[at.0].name@ == "["@ + decimal((f + 1) as nat) + "] "@ + labels[f as int],
        forall|j: int| 0 <= j < p.curves@.len() && (#[trigger] p.curves@[j]).file == f ==> j == at.0,
        ({
            let share = if 200_000nat / p.curves@.len() < 1_000 {
                1_000nat
            } else {
                200_000nat / p.curves@.len()
            };
            let points = multi[f as int]->0.points@;
            let shown = p.curves@[at.0].positions@;
            let step = at.1;
            &&& step >= 1
            &&& shown.len() <= share
            &&& points.len() <= share ==> shown == points
            &&& points.len() > share ==> (step - 1) * share < points.len() <= step * share
            &&& points.len() > 0 ==> (shown.len() - 1) * step < points.len() <= shown.len() * step
            &&& forall|i: int| 0 <= i < shown.len() ==> #[trigger] shown[i] == points[i * step]
        }),
{
    files_are_listed_in_order(multi);
    let files = plotted_files(multi);
    assert(files.contains(f));
    let k = choose|k: int| 0 <= k < files.len() && files[k] == f;
    let c = p.curves@[k];
    let points = multi[f as int]->0.points@;
    let share = points_per_curve(files.len());
    assert(c.positions@ == capped(points, share));
    let step = capping_takes_every_nth(points, share);
    assert forall|j: int| 0 <= j < p.curves@.len() && (#[trigger] p.curves@[j]).file == f implies j
        == k by {
        assert(files[j] == f);
        if j < k {
            assert(files[j] < files[k]);
        } else if k < j {
            assert(files[k] < files[j]);
        }
    }
    (k, step)
}

/// Every curve is of a file with a series, and the curves are in the order of the files. They are
/// scaled only where that is asked for and there are several; with more than twenty the legend is
/// hidden, and that is said.
pub proof fn curves_are_of_series(
    multi: Seq<Option<Loaded>>,
    labels: Seq<Seq<char>>,
    normalize: bool,
    p: CurvePlot,
    k: int,
)
    requires
        multi.len() <= usize::MAX,
        is_curve_plot(multi, labels, normalize, p),
        0 <= k < p.curves@.len(),
    ensures
        p.curves@[k].file < multi.len(),
        multi[p.curves@[k].file as int] matches Some(l) && l.y@.len() > 1,
        forall|j: int| k < j < p.curves@.len() ==> p.curves@[k].file < (#[trigger] p.curves@[j]).file,
        p.normalized == (normalize && p.curves@.len() > 1),
        p.chooser == (p.curves@.len() > 1),
        p.legend == (p.curves@.len() <= 20),
        p.x_label@ == joined(
            without_repeats(
                Seq::new(
                    p.curves@.len(),
                    |j: int| multi[p.curves@[j].file as int]->0.x_label@,
                ),
            ),
            " / "@,
        ),
        p.note is Some == (p.curves@.len() > 20),
        p.note matches Some(s) ==> s@ == decimal(p.curves@.len()) + " series — legend hidden"@,
        p.normalized ==> p.y_label@ == "normalized [0–1]"@,
        !p.normalized ==> p.y_label@ == ({
            let first = multi[p.curves@[0].file as int]->0;
            match first.units {
                Some(u) => first.label@ + " ("@ + u@ + ")"@,
                None => first.label@,
            }
        }),
{
    files_are_listed_in_order(multi);
    let files = plotted_files(multi);
    assert(files.contains(files[k]));
    assert(p.curves@[k].file == files[k]);
    assert(p.curves@[0].file == files[0]);
    assert(plotted_x_labels(multi, files) =~= Seq::new(
        p.curves@.len(),
        |j: int| multi[p.curves@[j].file as int]->0.x_label@,
    ));
    assert forall|j: int| k < j < p.curves@.len() implies p.curves@[k].file < (
    #[trigger] p.curves@[j]).file by {
        assert(files[k] < files[j]);
    }
}

/// A label is left out exactly where it repeats the one before it.
pub proof fn repeats_are_left_out(s: Seq<Seq<char>>, t: Seq<char>)
    requires
        s.len() > 0,
    ensures
        without_repeats(seq![t]) == seq![t],
        without_repeats(s.push(t)) == if s.last() == t {
            without_repeats(s)
        } else {
            without_repeats(s).push(t)
        },
        (forall|i: int| 0 <= i < s.len() ==> #[trigger] s[i] == t) ==> without_repeats(s) == seq![t],
    decreases s.len(),
{
    let n = s.push(t);
    assert(n.drop_last() =~= s);
    assert(n[n.len() - 2] == s.last());
    assert(seq![t].drop_last() =~= Seq::empty());
    assert(without_repeats(Seq::<Seq<char>>::empty()) =~= Seq::empty());
    assert(without_repeats(seq![t]) =~= seq![t]);
    if forall|i: int| 0 <= i < s.len() ==> #[trigger] s[i] == t {
        if s.len() == 1 {
            assert(s =~= seq![t]);
        } else {
            let init = s.drop_last();
            assert forall|i: int| 0 <= i < init.len() implies #[trigger] init[i] == t by {
                assert(s[i] == t);
            }
            repeats_are_left_out(init, t);
            assert(s[s.len() - 2] == t && s.last() == t);
        }
    }
}

/// Curves that all have the same x axis share its label.
pub proof fn same_axes_share_a_label(
    multi: Seq<Option<Loaded>>,
    labels: Seq<Seq<char>>,
    normalize: bool,
    p: CurvePlot,
    x: Seq<char>,
)
    requires
        multi.len() <= usize::MAX,
        is_curve_plot(multi, labels, normalize, p),
        p.curves@.len() > 0,
        forall|f: int|
            0 <= f < multi.len() ==> (#[trigger] multi[f] matches Some(l) ==> l.x_label@ == x),
    ensures
        p.x_label@ == x,
{
    files_are_listed_in_order(multi);
    let files = plotted_files(multi);
    let all = plotted_x_labels(multi, files);
    assert forall|k: int| 0 <= k < all.len() implies #[trigger] all[k] == x by {
        assert(files.contains(files[k]));
        assert(multi[files[k] as int] is Some);
    }
    repeats_are_left_out(all, x);
    joining_puts_separators_between(seq![], seq![], x, " / "@);
}

/// The label of a file is its name without `.nxs.h5`; a name that ends with neither extension
/// stays.
pub proof fn labels_are_names_without_extensions(dir: Seq<char>, stem: Seq<char>)
    requires
        crate::path::is_name(stem),
        !ends_with(stem, ".h5"@),
        !ends_with(stem, ".nxs"@),
    ensures
        short_name(entry_of(dir, stem + ".nxs"@ + ".h5"@)) == stem,
        short_name(entry_of(dir, stem + ".h5"@)) == stem,
        short_name(entry_of(dir, stem + ".nxs"@)) == stem,
        short_name(entry_of(dir, stem)) == stem,
{
    reveal_strlit(".h5");
    reveal_strlit(".nxs");
    let (h, x) = (".h5"@, ".nxs"@);
    label_of_name(dir, stem, Seq::empty());
    label_of_name(dir, stem, h);
    label_of_name(dir, stem, x);
    label_of_name(dir, stem, x + h);
    assert(stem + Seq::<char>::empty() =~= stem);
    assert(stem + (x + h) =~= stem + x + h);
    suffixes_are_dropped(stem, h);
    suffixes_are_dropped(stem, x);
    suffixes_are_dropped(stem + x, h);
    assert(!ends_with(stem + x, h)) by {
        let s = stem + x;
        if ends_with(s, h) {
            assert(s.subrange(s.len() - 3, s.len() as int)[2] == '5');
            assert(s[s.len() - 1] == 's');
        }
    }
}

/// The label of an entry of a directory, whose name is a name with an extension.
proof fn label_of_name(dir: Seq<char>, stem: Seq<char>, tail: Seq<char>)
    requires
        crate::path::is_name(stem),
        tail.len() == 0 || tail.len() > 2,
        forall|i: int| 0 <= i < tail.len() ==> #[trigger] tail[i] != '/',
    ensures
        short_name(entry_of(dir, stem + tail)) == without_suffixes(
            without_suffixes(stem + tail, ".h5"@),
            ".nxs"@,
        ),
{
    let name = stem + tail;
    assert forall|i: int| 0 <= i < name.len() implies #[trigger] name[i] != '/' by {
        if i < stem.len() {
            assert(stem[i] != '/');
        } else {
            assert(tail[i - stem.len()] != '/');
        }
    }
    if tail.len() == 0 {
        assert(name =~= stem);
    }
    entry_lies_in_directory(dir, name);
}

/// The title names a single open file, and else counts them.
pub proof fn title_names_a_single_file(files: Seq<Seq<char>>, dir: Seq<char>, name: Seq<char>)
    requires
        crate::path::is_name(name),
    ensures
        files.len() == 0 ==> window_title(files) == "NeXus Viewer"@,
        window_title(seq![entry_of(dir, name)]) == "NeXus Viewer — "@ + name,
        files.len() == 1 && name_of(files[0]) is None ==> window_title(files) == "NeXus Viewer — "@,
        files.len() > 1 ==> window_title(files) == "NeXus Viewer — "@ + decimal(files.len())
            + " files"@,
{
    entry_lies_in_directory(dir, name);
    assert("NeXus Viewer — "@ + Seq::<char>::empty() =~= "NeXus Viewer — "@);
}

/// What is said of found files: that there are none, the name of the only one, or how many they
/// are with the names of the first and the last.
pub proof fn found_files_are_named(
    files: Seq<Seq<char>>,
    dir: Seq<char>,
    first: Seq<char>,
    last: Seq<char>,
)
    requires
        crate::path::is_name(first),
        crate::path::is_name(last),
    ensures
        files.len() == 0 ==> found_text(files) == "no matching file"@,
        found_text(seq![entry_of(dir, first)]) == "1 file: "@ + first,
        files.len() > 1 && files[0] == entry_of(dir, first) && files.last() == entry_of(dir, last)
            ==> found_text(files) == decimal(files.len()) + " files: "@ + first + " … "@ + last,
{
    entry_lies_in_directory(dir, first);
    entry_lies_in_directory(dir, last);
}

/// Progress counts the files that are done, and the heading of a file what it holds; a path without
/// a name goes by its spelling.
pub proof fn headings_count(total: nat, left: nat, shown: Seq<char>, groups: nat, datasets: nat)
    requires
        left <= total,
    ensures
        heading(shown, groups, datasets) == shown + "   ("@ + decimal(groups) + " groups, "@ + decimal(
            datasets,
        ) + " datasets)"@,
        name_of(shown) is None ==> name_or_path(shown) == shown,
        name_of(shown) matches Some(s) ==> name_or_path(shown) == s,
        progress(total, left) == "opening "@ + decimal((total - left) as nat) + "/"@ + decimal(total)
            + "…"@,
{
}

} // verus!
