//! Typed paths, and finding the files of a typed run list: in a directory, or across every
//! experiment of the instrument.

use crate::datatype::message;
use crate::order::views;
use crate::panels::{describe_found, found_text};
use crate::path::{path_parts, same_path, FilePath};
use crate::pv::opt_text;
use crate::run_files::{
    auto_match_note, experiments_of, files_by_run, find_run_files, lists_asked_runs, match_note,
    run_hits, RunIndex,
};
use crate::runs::{asked_runs, asks_for_every_run, parse_run_ranges, ranges_of};
use crate::text::{after_prefix, prefix_is_in_front, same_text, starts_with, trim, trimmed};
use vstd::prelude::*;
use vstd::string::*;

verus! {

// ---------------------------------------------------------------------------------------------
// Typed paths
// ---------------------------------------------------------------------------------------------

/// A typed path with the home directory in place of a leading `~/`, where there is one.
pub open spec fn with_home(typed: Seq<char>, home: Option<Seq<char>>) -> Seq<char> {
    match home {
        Some(h) => if starts_with(typed, "~/"@) {
            h + "/"@ + typed.skip(2)
        } else {
            typed
        },
        None => typed,
    }
}

/// A typed path with the home directory in place of a leading `~/`, where there is one.
pub fn expand_home(typed: String, home: &Option<String>) -> (r: String)
    ensures
        r@ == with_home(typed@, opt_text(*home)),
{
    proof {
        reveal_strlit("~/");
    }
    if let Some(h) = home {
        if let Some(rest) = after_prefix(typed.as_str(), "~/") {
            let mut s = h.clone();
            s.append("/");
            s.append(rest.as_str());
            return s;
        }
    }
    typed
}

/// The path that was typed, without the spaces around it; none where nothing was typed.
pub fn typed_path(input: &str, home: &Option<String>) -> (r: Option<String>)
    ensures
        ({
            let path = with_home(trimmed(input@), opt_text(*home));
            opt_text(r) == if path.len() == 0 {
                None
            } else {
                Some(path)
            }
        }),
{
    let typed = expand_home(trim(input), home);
    if typed.as_str().is_empty() {
        None
    } else {
        Some(typed)
    }
}

/// What stands at a path.
#[derive(Clone, Copy, Debug, PartialEq, Eq, Structural)]
pub enum PathKind {
    File,
    Dir,
    Missing,
}

/// What a typed path asks for.
#[derive(Clone, Copy, Debug, PartialEq, Eq, Structural)]
pub enum TypedPath {
    /// Open the file.
    Open,
    /// Browse from the directory.
    Browse,
    /// Say that nothing was found.
    NotFound,
}

/// The popup in which a path is typed.
#[derive(Debug)]
pub struct PathPopup {
    pub open: bool,
    pub input: String,
    pub focus: bool,
    pub error: Option<String>,
}

impl PathPopup {
    /// Takes what is typed, given what stands at the path: a file is opened directly, a directory
    /// is the starting point of the browse dialog; either closes the popup.
    pub fn open_typed_path(&mut self, path: &str, kind: PathKind) -> (r: TypedPath)
        ensures
            r == match kind {
                PathKind::File => TypedPath::Open,
                PathKind::Dir => TypedPath::Browse,
                PathKind::Missing => TypedPath::NotFound,
            },
            kind == PathKind::Missing ==> final(self).open == old(self).open && opt_text(
                final(self).error,
            ) == Some("Not found: "@ + path@),
            kind != PathKind::Missing ==> !final(self).open && final(self).error is None,
            final(self).input == old(self).input,
            final(self).focus == old(self).focus,
    {
        match kind {
            PathKind::File => {
                self.open = false;
                self.error = None;
                TypedPath::Open
            },
            PathKind::Dir => {
                self.open = false;
                self.error = None;
                TypedPath::Browse
            },
            PathKind::Missing => {
                self.error = Some(message("Not found: ", path));
                TypedPath::NotFound
            },
        }
    }

    /// Shows the popup, with the directory `dir` filled in where nothing is typed yet.
    pub fn show(&mut self, dir: Option<String>)
        ensures
            final(self).open,
            final(self).focus,
            final(self).error is None,
            final(self).input@ == if old(self).input@.len() == 0 && dir is Some {
                dir->0@
            } else {
                old(self).input@
            },
    {
        if self.input.as_str().is_empty() {
            if let Some(d) = dir {
                self.input = d;
            }
        }
        self.open = true;
        self.focus = true;
        self.error = None;
    }

    /// Closes the popup.
    pub fn close(&mut self)
        ensures
            *final(self) == (PathPopup { open: false, error: None, ..*old(self) }),
    {
        self.open = false;
        self.error = None;
    }
}

// ---------------------------------------------------------------------------------------------
// Run lists
// ---------------------------------------------------------------------------------------------

/// The popup in which a run list is typed, and the files found for it.
#[derive(Debug)]
pub struct RunSearch {
    pub open: bool,
    pub dir: String,
    pub input: String,
    pub focus: bool,
    /// (directory, run list) the matches below were computed for.
    pub key: Option<(String, String)>,
    pub matches: Vec<FilePath>,
    pub error: Option<String>,
    /// Extra info about the matches ("from 3 IPTS; 2 runs not found").
    pub note: Option<String>,
    /// Run to NeXus file index over every IPTS of the instrument, used to locate runs without a
    /// directory.
    pub run_index: Option<RunIndex>,
    /// Whether a background scan is building that index.
    pub scanning: bool,
}

/// What is to be done to find the files of a run list.
#[derive(Debug)]
pub enum RunAction {
    /// Nothing: the matches are up to date.
    Nothing,
    /// Scan the experiments below this directory in the background.
    Scan(FilePath),
    /// List this directory.
    List(String),
}

/// What the popup says of the files found.
#[derive(Debug)]
pub enum RunStatus {
    /// A scan is under way.
    Scanning,
    Error(String),
    /// The files found, extra info about them, and whether the index can be rebuilt.
    Found { text: String, note: Option<String>, rescan: bool },
}

impl RunSearch {
    /// The index is one.
    pub open spec fn wf(&self) -> bool {
        self.run_index matches Some(index) ==> index.wf()
    }

    /// Nothing typed, nothing found.
    pub fn new() -> (s: RunSearch)
        ensures
            s.wf(),
            !s.open,
            s.dir@.len() == 0,
            s.input@.len() == 0,
            !s.focus,
            s.key is None,
            s.matches@.len() == 0,
            s.error is None,
            s.note is None,
            s.run_index is None,
            !s.scanning,
    {
        RunSearch {
            open: false,
            dir: String::new(),
            input: String::new(),
            focus: false,
            key: None,
            matches: Vec::new(),
            error: None,
            note: None,
            run_index: None,
            scanning: false,
        }
    }

    /// Whether the matches are those of what is typed.
    pub open spec fn is_current(&self) -> bool {
        self.key matches Some((dir, input)) && dir@ == self.dir@ && input@ == self.input@
    }

    /// Takes in a finished scan; the matches are then computed anew.
    pub fn take_index(&mut self, index: RunIndex)
        requires
            index.wf(),
        ensures
            final(self).wf(),
            *final(self) == (RunSearch {
                run_index: Some(index),
                scanning: false,
                key: None,
                ..*old(self)
            }),
    {
        self.run_index = Some(index);
        self.scanning = false;
        self.key = None;
    }

    /// Drops the index, so that the experiments are scanned again (picks up new runs).
    pub fn rescan(&mut self)
        ensures
            final(self).wf(),
            *final(self) == (RunSearch { run_index: None, key: None, ..*old(self) }),
    {
        self.run_index = None;
        self.key = None;
    }

    /// Whether the index at hand is of the directory `root`.
    pub open spec fn has_index_of(&self, root: Seq<char>) -> bool {
        self.run_index matches Some(index) && same_path(index.root@, root)
    }

    /// Whether the runs asked for can be counted, where they are located with the index of `root`.
    pub open spec fn is_countable(&self, root: Seq<char>) -> bool {
        trimmed(self.dir@).len() == 0 && self.has_index_of(root) ==> (ranges_of(
            self.input@,
        ) matches Some(ranges) ==> asked_runs(ranges).len() <= u64::MAX)
    }

    /// Whether the runs asked for can be counted, where they are located with the index of `root`.
    pub fn countable(&self, root: &FilePath) -> (r: bool)
        ensures
            r == self.is_countable(root@),
    {
        if !trim(self.dir.as_str()).as_str().is_empty() {
            return true;
        }
        match &self.run_index {
            Some(index) => if !index.root.same_as(root) {
                return true;
            },
            None => {
                return true;
            },
        }
        match parse_run_ranges(self.input.as_str()) {
            Some(ranges) => !asks_for_every_run(ranges.as_slice()),
            None => true,
        }
    }

    /// Recomputes the matches when what is typed changed, and says what is still to be done for
    /// them. With no directory the runs are located with the index of `root`, which is built first
    /// where there is none; the matches are then asked for again until it is there. A directory is
    /// listed next: see `take_listing`.
    pub fn update_range_matches(&mut self, root: FilePath, home: &Option<String>) -> (r: RunAction)
        requires
            old(self).wf(),
            old(self).is_current() || old(self).is_countable(root@),
        ensures
            final(self).wf(),
            *final(self) == (RunSearch {
                key: final(self).key,
                matches: final(self).matches,
                error: final(self).error,
                note: final(self).note,
                scanning: final(self).scanning,
                ..*old(self)
            }),
            old(self).is_current() ==> r is Nothing && *final(self) == *old(self),
            !old(self).is_current() ==> {
                let input = old(self).input@;
                let dir = trimmed(old(self).dir@);
                if trimmed(input).len() == 0 {
                    &&& r is Nothing
                    &&& final(self).is_current()
                    &&& final(self).matches@.len() == 0
                    &&& final(self).error is None
                    &&& final(self).note is None
                    &&& final(self).scanning == old(self).scanning
                } else {
                    match ranges_of(input) {
                        None => {
                            &&& r is Nothing
                            &&& final(self).is_current()
                            &&& final(self).matches@.len() == 0
                            &&& opt_text(final(self).error) == Some("cannot parse the run list"@)
                            &&& final(self).note is None
                            &&& final(self).scanning == old(self).scanning
                        },
                        Some(ranges) => if dir.len() > 0 {
                            &&& r matches RunAction::List(d) && d@ == with_home(dir, opt_text(*home))
                            &&& final(self).is_current()
                            &&& final(self).matches@.len() == 0
                            &&& final(self).error is None
                            &&& final(self).note is None
                            &&& final(self).scanning == old(self).scanning
                        } else if old(self).has_index_of(root@) {
                            &&& r is Nothing
                            &&& final(self).is_current()
                            &&& lists_asked_runs(
                                old(self).run_index->0.by_run(),
                                ranges,
                                views(final(self).matches@),
                            )
                            &&& final(self).error is None
                            &&& opt_text(final(self).note) == Some(
                                match_note(
                                    experiments_of(views(final(self).matches@)).len(),
                                    asked_runs(ranges).len(),
                                    final(self).matches@.len(),
                                ),
                            )
                            &&& final(self).scanning == old(self).scanning
                        } else {
                            &&& if old(self).scanning {
                                r is Nothing
                            } else {
                                r matches RunAction::Scan(d) && d == root
                            }
                            &&& final(self).key is None
                            &&& final(self).matches@.len() == 0
                            &&& final(self).error is None
                            &&& final(self).note is None
                            &&& final(self).scanning
                        },
                    }
                }
            },
    {
        if let Some((dir, input)) = &self.key {
            if same_text(dir.as_str(), self.dir.as_str()) && same_text(
                input.as_str(),
                self.input.as_str(),
            ) {
                return RunAction::Nothing;
            }
        }
        self.key = Some((self.dir.clone(), self.input.clone()));
        self.matches = Vec::new();
        self.error = None;
        self.note = None;
        if trim(self.input.as_str()).as_str().is_empty() {
            return RunAction::Nothing;
        }
        let ranges = match parse_run_ranges(self.input.as_str()) {
            Some(ranges) => ranges,
            None => {
                self.error = Some("cannot parse the run list".to_owned());
                return RunAction::Nothing;
            },
        };
        let dir = trim(self.dir.as_str());
        if !dir.as_str().is_empty() {
            return RunAction::List(expand_home(dir, home));
        }
        if let Some(index) = &self.run_index {
            if index.root.same_as(&root) {
                let matches = index.find(ranges.as_slice());
                self.note = Some(auto_match_note(matches.as_slice(), ranges.as_slice()));
                self.matches = matches;
                return RunAction::Nothing;
            }
        }
        self.key = None;
        if self.scanning {
            RunAction::Nothing
        } else {
            self.scanning = true;
            RunAction::Scan(root)
        }
    }

    /// Takes in the names in the directory that was asked for, or that it is not one.
    pub fn take_listing(&mut self, dir: &str, names: Option<Vec<String>>)
        requires
            old(self).wf(),
        ensures
            final(self).wf(),
            *final(self) == (RunSearch {
                matches: final(self).matches,
                error: final(self).error,
                ..*old(self)
            }),
            match names {
                None => {
                    &&& opt_text(final(self).error) == Some("not a directory: "@ + dir@)
                    &&& final(self).matches == old(self).matches
                },
                Some(names) => {
                    &&& final(self).error == old(self).error
                    &&& match ranges_of(old(self).input@) {
                        Some(ranges) => views(final(self).matches@) == files_by_run(
                            run_hits(dir@, views(names@), ranges),
                        ),
                        None => final(self).matches == old(self).matches,
                    }
                },
            },
    {
        match names {
            None => {
                self.error = Some(message("not a directory: ", dir));
            },
            Some(names) => {
                if let Some(ranges) = parse_run_ranges(self.input.as_str()) {
                    self.matches = find_run_files(
                        &FilePath::from_text(dir),
                        &names,
                        ranges.as_slice(),
                    );
                }
            },
        }
    }

    /// What the popup says of the files found.
    pub fn status(&self) -> (r: RunStatus)
        ensures
            ({
                let anywhere = trimmed(self.dir@).len() == 0;
                if self.scanning && anywhere && trimmed(self.input@).len() > 0 {
                    r is Scanning
                } else {
                    match self.error {
                        Some(e) => r matches RunStatus::Error(m) && m@ == e@,
                        None => r matches RunStatus::Found { text, note, rescan } && text@
                            == found_text(views(self.matches@)) && opt_text(note) == opt_text(
                            self.note,
                        ) && rescan == (self.run_index is Some && anywhere),
                    }
                }
            }),
    {
        let anywhere = trim(self.dir.as_str()).as_str().is_empty();
        if self.scanning && anywhere && !trim(self.input.as_str()).as_str().is_empty() {
            return RunStatus::Scanning;
        }
        match &self.error {
            Some(e) => RunStatus::Error(e.clone()),
            None => {
                let note = match &self.note {
                    Some(n) => Some(n.clone()),
                    None => None,
                };
                RunStatus::Found {
                    text: describe_found(&self.matches),
                    note,
                    rescan: self.run_index.is_some() && anywhere,
                }
            },
        }
    }
}

/// A leading `~/` stands for the home directory, where there is one; nothing else is replaced.
pub proof fn home_is_put_in_front(rest: Seq<char>, home: Seq<char>, typed: Seq<char>)
    ensures
        with_home("~/"@ + rest, Some(home)) == home + "/"@ + rest,
        with_home(typed, None) == typed,
        typed.len() == 0 || typed[0] != '~' ==> with_home(typed, Some(home)) == typed,
        typed.len() < 2 || typed[1] != '/' ==> with_home(typed, Some(home)) == typed,
{
    reveal_strlit("~/");
    let s = "~/"@ + rest;
    prefix_is_in_front(s, "~/"@);
    assert(starts_with(s, "~/"@));
    assert(s.skip(2) =~= rest);
    if starts_with(typed, "~/"@) {
        assert(typed.subrange(0, 2)[0] == typed[0]);
        assert(typed.subrange(0, 2)[1] == typed[1]);
    }
}

/// The matches are current exactly where they were computed for the directory and the run list as
/// they are typed, and an index serves any spelling of its directory.
pub proof fn matches_are_of_what_is_typed(s: RunSearch, root: Seq<char>)
    ensures
        s.is_current() <==> (s.key matches Some(k) && k.0@ == s.dir@ && k.1@ == s.input@),
        s.has_index_of(root) <==> (s.run_index matches Some(i) && path_parts(i.root@) == path_parts(
            root,
        )),
{
}

/// Runs that are listed in a directory, or that there is no index for, need not be counted; neither
/// does a list that cannot be read.
pub proof fn only_located_runs_are_counted(s: RunSearch, root: Seq<char>)
    ensures
        trimmed(s.dir@).len() > 0 ==> s.is_countable(root),
        s.run_index is None ==> s.is_countable(root),
        ranges_of(s.input@) is None ==> s.is_countable(root),
        ranges_of(s.input@) matches Some(ranges) && asked_runs(ranges).len() <= u64::MAX
            ==> s.is_countable(root),
{
}

} // verus!
