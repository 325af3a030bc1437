//! What the window shows of a session: the top bar, the sections of the tree panel, and the head
//! of the dataset view.

use crate::order::views;
use crate::panels::{
    content_of, counted, dataset_content, file_heading, file_label, heading, progress,
    progress_text, short_name, Content,
};
use crate::pv::{opt_text, Sel};
use crate::session::{is_within, OpenFile, Session};
use crate::text::{decimal, join, joined};
use vstd::prelude::*;
use vstd::string::*;

verus! {

/// What the top bar says of the open files.
#[derive(Debug)]
pub enum Heading {
    Nothing,
    OneFile(String),
    ManyFiles {
        text: String,
        /// Their paths, one to a line.
        list: String,
    },
}

/// What the top bar shows.
#[derive(Debug)]
pub struct TopBar {
    /// How many nodes match, while something is searched for.
    pub matches: Option<String>,
    /// Whether something is searched for and nothing matches.
    pub no_match: bool,
    /// How far opening files has come, while files are queued.
    pub progress: Option<String>,
    pub heading: Heading,
}

/// The paths of the open files as they were given.
pub open spec fn shown_paths(files: Seq<OpenFile>) -> Seq<Seq<char>> {
    Seq::new(files.len(), |i: int| files[i].tree.file_path@)
}

/// What the top bar shows.
pub fn top_bar(s: &Session) -> (bar: TopBar)
    requires
        s.wf(),
    ensures
        opt_text(bar.matches) == if s.search@.len() > 0 {
            Some(decimal(s.total_matches as nat) + " match(es)"@)
        } else {
            None
        },
        bar.no_match == (s.search@.len() > 0 && s.total_matches == 0),
        opt_text(bar.progress) == if s.pending@.len() > 0 {
            Some(progress(s.pending_total as nat, s.pending@.len()))
        } else {
            None
        },
        ({
            let n = s.files@.len();
            if n == 0 {
                bar.heading is Nothing
            } else if n == 1 {
                bar.heading matches Heading::OneFile(text) && text@ == heading(
                    s.files@[0].tree.file_path@,
                    s.files@[0].tree.n_groups as nat,
                    s.files@[0].tree.n_datasets as nat,
                )
            } else {
                bar.heading matches Heading::ManyFiles { text, list } && text@ == decimal(n)
                    + " files open"@ && list@ == joined(shown_paths(s.files@), "\n"@)
            }
        }),
{
    let active = s.filter_active();
    let matches = if active {
        Some(number_and(s.total_matches, " match(es)"))
    } else {
        None
    };
    let progress = if s.pending.len() > 0 {
        Some(progress_text(s.pending_total, s.pending.len()))
    } else {
        None
    };
    let n: usize = s.files.len();
    let heading = if n == 0 {
        Heading::Nothing
    } else if n == 1 {
        let file = &s.files[0];
        Heading::OneFile(
            file_heading(
                file.tree.file_path.text.as_str(),
                file.tree.n_groups,
                file.tree.n_datasets,
            ),
        )
    } else {
        let mut paths: Vec<String> = Vec::new();
        let mut i: usize = 0;
        while i < n
            invariant
                i <= n,
                n == s.files@.len(),
                paths@.len() == i,
                forall|j: int| 0 <= j < i ==> (#[trigger] paths@[j])@ == s.files@[j].tree.file_path@,
            decreases n - i,
        {
            paths.push(s.files[i].tree.file_path.to_text());
            i = i + 1;
        }
        assert(views(paths@) =~= shown_paths(s.files@));
        Heading::ManyFiles { text: number_and(n, " files open"), list: join(&paths, "\n") }
    };
    TopBar { matches, no_match: active && s.total_matches == 0, progress, heading }
}

/// A number, then `tail`.
fn number_and(n: usize, tail: &str) -> (s: String)
    ensures
        s@ == decimal(n as nat) + tail@,
{
    let s = counted("", n, tail);
    proof {
        reveal_strlit("");
        assert(s@ =~= decimal(n as nat) + tail@);
    }
    s
}

/// The head of a file's section in the tree panel.
#[derive(Debug)]
pub struct FileSection {
    /// The number of the file, where several are open.
    pub number: Option<String>,
    pub label: String,
    /// The path as it was given.
    pub hover: String,
    /// Whether the section starts expanded: a handful of files do; a long run range starts
    /// collapsed so the list stays scannable.
    pub default_open: bool,
    /// Whether something is searched for and nothing in the file matches.
    pub no_match: bool,
}

/// At most this many files start expanded.
pub const MAX_EXPANDED: usize = 4;

/// The heads of the sections of the tree panel, one for each open file.
pub fn file_sections(s: &Session) -> (sections: Vec<FileSection>)
    ensures
        sections@.len() == s.files@.len(),
        forall|f: int|
            0 <= f < sections@.len() ==> {
                let file = s.files@[f];
                let section = #[trigger] sections@[f];
                &&& opt_text(section.number) == if s.files@.len() > 1 {
                    Some("["@ + decimal((f + 1) as nat) + "]"@)
                } else {
                    None
                }
                &&& section.label@ == short_name(file.tree.file_path@)
                &&& section.hover@ == file.tree.file_path@
                &&& section.default_open == (s.files@.len() <= MAX_EXPANDED)
                &&& section.no_match == (s.search@.len() > 0 && file.matches.match_count == 0)
            },
        forall|f: int|
            0 <= f < sections@.len() ==> (#[trigger] sections@[f]).default_open == (s.files@.len()
                <= 4),
{
    let n: usize = s.files.len();
    let active = s.filter_active();
    let mut sections: Vec<FileSection> = Vec::new();
    let mut f: usize = 0;
    while f < n
        invariant
            f <= n,
            n == s.files@.len(),
            active == (s.search@.len() > 0),
            sections@.len() == f,
            forall|k: int|
                0 <= k < f ==> {
                    let file = s.files@[k];
                    let section = #[trigger] sections@[k];
                    &&& opt_text(section.number) == if s.files@.len() > 1 {
                        Some("["@ + decimal((k + 1) as nat) + "]"@)
                    } else {
                        None
                    }
                    &&& section.label@ == short_name(file.tree.file_path@)
                    &&& section.hover@ == file.tree.file_path@
                    &&& section.default_open == (s.files@.len() <= MAX_EXPANDED)
                    &&& section.no_match == (s.search@.len() > 0 && file.matches.match_count == 0)
                },
        decreases n - f,
    {
        let file = &s.files[f];
        let number = if n > 1 {
            Some(counted("[", f + 1, "]"))
        } else {
            None
        };
        sections.push(
            FileSection {
                number,
                label: file_label(&file.tree.file_path),
                hover: file.tree.file_path.to_text(),
                default_open: n <= MAX_EXPANDED,
                no_match: active && file.matches.match_count == 0,
            },
        );
        f = f + 1;
    }
    sections
}

/// A line that names a selected dataset.
#[derive(Debug)]
pub struct HeadLine {
    /// The mark of the selection, and the short name of its file where several are open; only
    /// where there is a second selection.
    pub mark: Option<String>,
    pub file: Option<String>,
    pub path: String,
}

/// Whether `line` names the dataset `sel`, as selection `mark` where it is marked.
pub open spec fn names_dataset(
    files: Seq<OpenFile>,
    sel: Sel,
    mark: Seq<char>,
    marked: bool,
    line: HeadLine,
) -> bool {
    let file = files[sel.0 as int];
    &&& opt_text(line.mark) == if marked {
        Some(mark)
    } else {
        None
    }
    &&& opt_text(line.file) == if marked && files.len() > 1 {
        Some(short_name(file.tree.file_path@))
    } else {
        None
    }
    &&& line.path@ == file.tree.nodes@[sel.1 as int].path@
}

/// The line that names the dataset `sel`, as selection `mark` where it is marked.
fn head_line(s: &Session, sel: Sel, mark: &str, marked: bool) -> (line: HeadLine)
    requires
        is_within(s.files@, sel),
    ensures
        names_dataset(s.files@, sel, mark@, marked, line),
{
    let file = &s.files[sel.0];
    HeadLine {
        mark: if marked {
            Some(mark.to_owned())
        } else {
            None
        },
        file: if marked && s.files.len() > 1 {
            Some(file_label(&file.tree.file_path))
        } else {
            None
        },
        path: file.tree.nodes[sel.1].path.clone(),
    }
}

/// The head of the dataset view and what is shown below it; none without a selection.
#[derive(Debug)]
pub struct DatasetView {
    pub first: HeadLine,
    pub second: Option<HeadLine>,
    pub content: Content,
}

/// The head of the dataset view and what is shown below it; none without a selection.
pub fn dataset_view(s: &Session) -> (r: Option<DatasetView>)
    requires
        s.wf(),
    ensures
        r is Some == s.selected is Some,
        r matches Some(view) ==> {
            &&& names_dataset(s.files@, s.selected->0, "[1]"@, s.second is Some, view.first)
            &&& match view.second {
                Some(line) => s.second is Some && names_dataset(
                    s.files@,
                    s.second->0,
                    "[2]"@,
                    true,
                    line,
                ),
                None => s.second is None,
            }
            &&& view.content == content_of(s.loaded->0, s.loaded2, s.files@.len() > 1)
        },
{
    match (s.selected, &s.loaded) {
        (Some(sel), Some(l)) => {
            let second = match s.second {
                Some(sel2) => Some(head_line(s, sel2, "[2]", true)),
                None => None,
            };
            Some(
                DatasetView {
                    first: head_line(s, sel, "[1]", s.second.is_some()),
                    second,
                    content: dataset_content(l, &s.loaded2, s.files.len() > 1),
                },
            )
        },
        _ => None,
    }
}

/// The line of a selected dataset has its path in its own file; its mark and, with several files
/// open, the label of that file only where there is a second selection.
pub proof fn head_lines_name_their_dataset(
    files: Seq<OpenFile>,
    sel: Sel,
    mark: Seq<char>,
    marked: bool,
    line: HeadLine,
)
    requires
        is_within(files, sel),
        names_dataset(files, sel, mark, marked, line),
    ensures
        line.path@ == files[sel.0 as int].tree.nodes@[sel.1 as int].path@,
        line.mark is Some == marked,
        line.mark matches Some(m) ==> m@ == mark,
        line.file is Some == (marked && files.len() > 1),
        line.file matches Some(s) ==> s@ == short_name(files[sel.0 as int].tree.file_path@),
{
}

/// The paths are shown as the files were given, in their order.
pub proof fn paths_are_shown_in_order(files: Seq<OpenFile>, i: int)
    requires
        0 <= i < files.len(),
    ensures
        shown_paths(files).len() == files.len(),
        shown_paths(files)[i] == files[i].tree.file_path@,
{
}

} // verus!
