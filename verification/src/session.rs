//! What is open and selected, and how opening, closing, searching and selecting change it.

use crate::browse::{
    click_target, find_matches, is_selection, match_count_is_of_the_matches,
    names_that_hold_the_text_match, needle_of, true_count, Matches,
};
use crate::order::views;
use crate::panels::{file_label, same_key, short_name, title_of, window_title};
use crate::path::{
    default_dir, instrument_root, path_parts, same_path, search_root, start_dir, FilePath,
};
use crate::pv::{
    build_xy, can_pair, is_loaded, is_pairing, load_node, pairable, Loaded, NodeRead, Sel, XyCache,
};
use crate::text::{lowercase, same_text, to_lower};
use crate::tree::{
    are_named, first_child_named, first_node_at_path_is_found, is_lowered, node_at_path,
    path_leads_to_node, NodeView, Tree,
};
use std::collections::VecDeque;
use vstd::prelude::*;

verus! {

/// One open NeXus file plus its per-file search-match state.
#[derive(Debug)]
pub struct OpenFile {
    pub tree: Tree,
    /// Canonicalized path, used to avoid opening the same file twice.
    pub canon: FilePath,
    pub matches: Matches,
}

/// How two selected PVs are compared.
#[derive(Clone, Copy, Debug, PartialEq, Eq, Structural)]
pub enum CompareMode {
    /// One PV against the other (paired via time interpolation or by index).
    Xy,
    /// Both PVs as y-curves over their own x axes.
    Overlay,
}

/// The open files, the search and the selection.
#[derive(Debug)]
pub struct Session {
    pub files: Vec<OpenFile>,
    pub error: Option<String>,
    pub search: String,
    pub case_sensitive: bool,
    /// (query, case_sensitive, generation) the matches were computed for.
    pub computed_for: Option<(String, bool, u64)>,
    /// Bumped whenever the set of open files changes.
    pub generation: u64,
    pub total_matches: usize,
    pub selected: Option<Sel>,
    pub loaded: Option<Loaded>,
    /// Second selection for compare plots.
    pub second: Option<Sel>,
    pub loaded2: Option<Loaded>,
    /// The selected PV loaded from the open files (index-aligned with `files`; none where the
    /// file has no dataset at that path).
    pub multi: Vec<Option<Loaded>>,
    pub compare_mode: CompareMode,
    pub swap_xy: bool,
    pub normalize: bool,
    pub xy_cache: Option<XyCache>,
    /// Files queued for opening: bulk opens load a few per frame so the UI stays alive.
    pub pending: VecDeque<String>,
    pub pending_total: usize,
}

// ---------------------------------------------------------------------------------------------
// What always holds
// ---------------------------------------------------------------------------------------------

/// Whether no file is open twice.
pub open spec fn are_distinct(files: Seq<OpenFile>) -> bool {
    forall|i: int, j: int|
        0 <= i < j < files.len() ==> !same_path(
            (#[trigger] files[i]).canon@,
            (#[trigger] files[j]).canon@,
        )
}

/// Whether every open file has a tree.
pub open spec fn are_trees(files: Seq<OpenFile>) -> bool {
    forall|i: int| 0 <= i < files.len() ==> (#[trigger] files[i]).tree.wf()
}

/// Whether a selection is a node of an open file.
pub open spec fn is_within(files: Seq<OpenFile>, s: Sel) -> bool {
    s.0 < files.len() && s.1 < files[s.0 as int].tree.nodes@.len()
}

/// Whether a selection and what was loaded for it belong together.
pub open spec fn selection_fits(
    files: Seq<OpenFile>,
    sel: Option<Sel>,
    loaded: Option<Loaded>,
) -> bool {
    match (sel, loaded) {
        (Some(s), Some(l)) => is_within(files, s) && l.wf() && (l.file, l.node) == s,
        (None, None) => true,
        _ => false,
    }
}

/// Whether the entries across files belong to the first of the open files, in order.
pub open spec fn multi_fits(files: Seq<OpenFile>, multi: Seq<Option<Loaded>>) -> bool {
    &&& multi.len() <= files.len()
    &&& forall|f: int|
        0 <= f < multi.len() ==> (#[trigger] multi[f] matches Some(l) ==> {
            &&& l.wf()
            &&& l.file == f
            &&& is_within(files, (l.file, l.node))
        })
}

/// How many nodes match over all files.
pub open spec fn match_total(files: Seq<OpenFile>) -> nat
    decreases files.len(),
{
    if files.len() == 0 {
        0
    } else {
        match_total(files.drop_last()) + files.last().matches.match_count as nat
    }
}

/// How many nodes there are over all files.
pub open spec fn node_total(files: Seq<OpenFile>) -> nat
    decreases files.len(),
{
    if files.len() == 0 {
        0
    } else {
        node_total(files.drop_last()) + files.last().tree.nodes@.len()
    }
}

/// Whether the matches of the file are those of a search.
pub open spec fn is_searched(f: OpenFile, search: Seq<char>, case_sensitive: bool) -> bool {
    f.matches.found(
        views(f.tree.nodes@),
        needle_of(search, case_sensitive),
        case_sensitive,
    )
}

/// Whether the matches of all files are those of a search.
pub open spec fn all_searched(files: Seq<OpenFile>, search: Seq<char>, case_sensitive: bool) -> bool {
    forall|i: int| 0 <= i < files.len() ==> #[trigger] is_searched(files[i], search, case_sensitive)
}

impl Session {
    /// What holds of every session: no file is open twice; selections are nodes of open files,
    /// with what was loaded for them; the matches are those they are said to be of; a pairing is
    /// that of the two selected PVs; and no more files are queued than were asked for.
    pub open spec fn wf(&self) -> bool {
        &&& are_trees(self.files@)
        &&& are_distinct(self.files@)
        &&& selection_fits(self.files@, self.selected, self.loaded)
        &&& selection_fits(self.files@, self.second, self.loaded2)
        &&& multi_fits(self.files@, self.multi@)
        &&& self.computed_for matches Some((search, case_sensitive, generation)) ==> {
            &&& generation == self.generation
            &&& all_searched(self.files@, search@, case_sensitive)
            &&& self.total_matches == match_total(self.files@)
        }
        &&& self.xy_cache matches Some(c) ==> {
            &&& self.loaded matches Some(a)
            &&& self.loaded2 matches Some(b)
            &&& a.is_plottable()
            &&& b.is_plottable()
            &&& is_pairing(c, a, b, c.key.2)
        }
        &&& self.pending@.len() <= self.pending_total
    }

    /// A session with nothing open.
    pub fn new() -> (s: Session)
        ensures
            s.wf(),
            s.files@.len() == 0,
            s.error is None,
            s.search@.len() == 0,
            !s.case_sensitive,
            s.computed_for is None,
            s.generation == 0,
            s.total_matches == 0,
            s.selected is None,
            s.loaded is None,
            s.second is None,
            s.loaded2 is None,
            s.multi@.len() == 0,
            s.compare_mode == CompareMode::Xy,
            !s.swap_xy,
            !s.normalize,
            s.xy_cache is None,
            s.pending@.len() == 0,
            s.pending_total == 0,
    {
        Session {
            files: Vec::new(),
            error: None,
            search: String::new(),
            case_sensitive: false,
            computed_for: None,
            generation: 0,
            total_matches: 0,
            selected: None,
            loaded: None,
            second: None,
            loaded2: None,
            multi: Vec::new(),
            compare_mode: CompareMode::Xy,
            swap_xy: false,
            normalize: false,
            xy_cache: None,
            pending: VecDeque::new(),
            pending_total: 0,
        }
    }
}

// ---------------------------------------------------------------------------------------------
// Opening
// ---------------------------------------------------------------------------------------------

/// The generation after this one; after the last comes the first.
pub open spec fn next_generation(g: u64) -> u64 {
    if g == u64::MAX {
        0
    } else {
        (g + 1) as u64
    }
}

/// What the work on a queue of files asks for next.
#[derive(Debug)]
pub enum PendingStep {
    /// Nothing is queued.
    Idle,
    /// Open this file.
    Open(String),
    /// Go on in the next frame.
    Pause,
    /// The last file was opened.
    Done,
}

/// Opening goes on for up to this many milliseconds per frame.
pub const FRAME_MILLIS: u128 = 100;

impl Session {
    /// Whether a file is open.
    pub open spec fn has_file(&self, canon: Seq<char>) -> bool {
        exists|i: int|
            0 <= i < self.files@.len() && same_path((#[trigger] self.files@[i]).canon@, canon)
    }

    /// Whether a file that is to be added is open already.
    pub fn already_open(&self, canon: &FilePath, add: bool) -> (r: bool)
        ensures
            r == (add && self.has_file(canon@)),
    {
        if !add {
            return false;
        }
        let mut i: usize = 0;
        while i < self.files.len()
            invariant
                add,
                i <= self.files.len(),
                forall|j: int| 0 <= j < i ==> !same_path((#[trigger] self.files@[j]).canon@, canon@),
            decreases self.files.len() - i,
        {
            if self.files[i].canon.same_as(canon) {
                assert(same_path(self.files@[i as int].canon@, canon@));
                return true;
            }
            i = i + 1;
        }
        false
    }

    /// Takes in a file that was read, or why it could not be; returns whether it is now open.
    /// `add` keeps the already-open files (for cross-file compare), otherwise they are replaced.
    /// A file that is open already is not added again. What is selected across files is left to
    /// `rebuild_multi` (bulk opens do that once).
    pub fn open_file_inner(
        &mut self,
        canon: FilePath,
        add: bool,
        read: Result<Tree, String>,
    ) -> (opened: bool)
        requires
            old(self).wf(),
            read matches Ok(tree) ==> tree.wf(),
        ensures
            final(self).wf(),
            opened == (read is Ok && !(add && old(self).has_file(canon@))),
            !opened ==> *final(self) == (Session { error: final(self).error, ..*old(self) }),
            match read {
                Err(e) if !(add && old(self).has_file(canon@)) => final(self).error == Some(e),
                _ => !opened ==> final(self).error == old(self).error,
            },
            opened ==> {
                let n = final(self).files@.len() - 1;
                let kept = if add {
                    old(self).files@
                } else {
                    Seq::empty()
                };
                &&& n == kept.len()
                &&& final(self).files@.take(n) == kept
                &&& final(self).files@[n].canon == canon
                &&& read == Ok::<Tree, String>(final(self).files@[n].tree)
                &&& final(self).files@[n].matches.node_match@.len() == 0
                &&& final(self).files@[n].matches.subtree_match@.len() == 0
                &&& final(self).files@[n].matches.match_count == 0
                &&& final(self).error is None
                &&& final(self).generation == next_generation(old(self).generation)
                &&& final(self).computed_for is None
                &&& final(self).xy_cache is None
                &&& add ==> final(self).selected == old(self).selected
                &&& add ==> final(self).loaded == old(self).loaded
                &&& add ==> final(self).second == old(self).second
                &&& add ==> final(self).loaded2 == old(self).loaded2
                &&& add ==> final(self).multi == old(self).multi
                &&& !add ==> final(self).selected is None && final(self).second is None
                &&& !add ==> final(self).multi@.len() == 0
                &&& *final(self) == (Session {
                    files: final(self).files,
                    error: final(self).error,
                    generation: final(self).generation,
                    computed_for: final(self).computed_for,
                    xy_cache: final(self).xy_cache,
                    selected: final(self).selected,
                    loaded: final(self).loaded,
                    second: final(self).second,
                    loaded2: final(self).loaded2,
                    multi: final(self).multi,
                    ..*old(self)
                })
            },
    {
        if self.already_open(&canon, add) {
            return false;
        }
        match read {
            Ok(tree) => {
                if !add {
                    self.drop_files();
                }
                let ghost kept = self.files@;
                let matches = Matches {
                    node_match: Vec::new(),
                    subtree_match: Vec::new(),
                    match_count: 0,
                };
                self.files.push(OpenFile { tree, canon, matches });
                self.error = None;
                self.generation = self.generation.wrapping_add(1);
                self.computed_for = None;
                self.xy_cache = None;
                proof {
                    let now = self.files@;
                    assert(now.take(kept.len() as int) =~= kept);
                    assert forall|i: int| 0 <= i < now.len() implies (#[trigger] now[i]).tree.wf() by {
                        if i < kept.len() {
                            assert(now[i] == kept[i]);
                        }
                    }
                    assert forall|i: int, j: int| 0 <= i < j < now.len() implies !same_path(
                        (#[trigger] now[i]).canon@,
                        (#[trigger] now[j]).canon@,
                    ) by {
                        assert(now[i] == kept[i]);
                        if j < kept.len() {
                            assert(now[j] == kept[j]);
                        }
                    }
                    adding_keeps_selections(kept, now, self.selected, self.loaded);
                    adding_keeps_selections(kept, now, self.second, self.loaded2);
                    adding_keeps_multi(kept, now, self.multi@);
                }
                true
            },
            Err(e) => {
                self.error = Some(e);
                false
            },
        }
    }

    /// Queues files for opening (loaded a few per frame, with progress shown in the top bar).
    /// `add` keeps the already-open files. Returns the path that is to be remembered among the
    /// recent ones: only the first, since a long run range must not wipe the hand-picked entries.
    pub fn enqueue_opens(&mut self, paths: Vec<String>, add: bool) -> (remember: Option<String>)
        requires
            old(self).wf(),
            old(self).pending@.len() + paths@.len() <= usize::MAX,
        ensures
            final(self).wf(),
            paths@.len() == 0 ==> remember is None && *final(self) == *old(self),
            paths@.len() > 0 ==> {
                &&& remember matches Some(p) && p@ == paths@[0]@
                &&& final(self).pending@ == old(self).pending@ + paths@
                &&& final(self).pending_total == final(self).pending@.len()
                &&& add ==> *final(self) == (Session {
                    pending: final(self).pending,
                    pending_total: final(self).pending_total,
                    ..*old(self)
                })
                &&& !add ==> {
                    &&& final(self).files@.len() == 0
                    &&& final(self).selected is None
                    &&& final(self).second is None
                    &&& final(self).multi@.len() == 0
                    &&& final(self).xy_cache is None
                    &&& final(self).generation == next_generation(old(self).generation)
                    &&& final(self).computed_for is None
                    &&& *final(self) == (Session {
                        files: final(self).files,
                        selected: final(self).selected,
                        loaded: final(self).loaded,
                        second: final(self).second,
                        loaded2: final(self).loaded2,
                        multi: final(self).multi,
                        xy_cache: final(self).xy_cache,
                        generation: final(self).generation,
                        computed_for: final(self).computed_for,
                        pending: final(self).pending,
                        pending_total: final(self).pending_total,
                        ..*old(self)
                    })
                }
            },
    {
        if paths.len() == 0 {
            return None;
        }
        if !add {
            self.drop_files();
            self.generation = self.generation.wrapping_add(1);
        }
        let first = paths[0].clone();
        let mut queue: VecDeque<String> = VecDeque::new();
        let mut rest = paths;
        while rest.len() > 0
            invariant
                rest@ + queue@ == paths@,
            decreases rest.len(),
        {
            let ghost whole = rest@;
            let ghost behind = queue@;
            if let Some(p) = rest.pop() {
                queue.push_front(p);
                assert(rest@ + queue@ =~= whole + behind);
            }
        }
        assert(queue@ =~= paths@);
        self.pending.append(&mut queue);
        self.pending_total = self.pending.len();
        Some(first)
    }

    /// The next step in opening queued files, for up to about a tenth of a second per frame:
    /// `opened` says whether this frame opened any yet, and `millis` how long it has taken.
    pub fn process_pending(&mut self, opened: bool, millis: u128) -> (step: PendingStep)
        requires
            old(self).wf(),
        ensures
            final(self).wf(),
            old(self).pending@.len() == 0 && !opened ==> step is Idle && *final(self) == *old(self),
            old(self).pending@.len() == 0 && opened ==> step is Done && *final(self) == (Session {
                pending_total: 0,
                ..*old(self)
            }),
            old(self).pending@.len() > 0 && opened && millis > FRAME_MILLIS ==> step is Pause
                && *final(self) == *old(self),
            old(self).pending@.len() > 0 && !(opened && millis > FRAME_MILLIS) ==> {
                &&& step == PendingStep::Open(old(self).pending@[0])
                &&& final(self).pending@ == old(self).pending@.skip(1)
                &&& *final(self) == (Session { pending: final(self).pending, ..*old(self) })
            },
            old(self).pending@.len() > 0 ==> step is Pause == (opened && millis > 100),
    {
        if self.pending.len() == 0 {
            if opened {
                self.pending_total = 0;
                PendingStep::Done
            } else {
                PendingStep::Idle
            }
        } else if opened && millis > FRAME_MILLIS {
            PendingStep::Pause
        } else {
            match self.pending.pop_front() {
                Some(p) => {
                    assert(self.pending@ =~= old(self).pending@.skip(1));
                    PendingStep::Open(p)
                },
                None => PendingStep::Idle,
            }
        }
    }

    /// Gives up the files that are still queued. What is selected across files is left to
    /// `rebuild_multi`.
    pub fn cancel_pending(&mut self)
        requires
            old(self).wf(),
        ensures
            final(self).wf(),
            final(self).pending@.len() == 0,
            final(self).pending_total == 0,
            *final(self) == (Session { pending: final(self).pending, pending_total: 0, ..*old(self) }),
    {
        self.pending.clear();
        self.pending_total = 0;
    }

    /// Closes every file, and gives up those that are queued.
    pub fn close_all(&mut self)
        requires
            old(self).wf(),
        ensures
            final(self).wf(),
            final(self).files@.len() == 0,
            final(self).pending@.len() == 0,
            final(self).pending_total == 0,
            final(self).selected is None,
            final(self).second is None,
            final(self).multi@.len() == 0,
            final(self).xy_cache is None,
            final(self).generation == next_generation(old(self).generation),
            final(self).computed_for is None,
            *final(self) == (Session {
                files: final(self).files,
                pending: final(self).pending,
                pending_total: final(self).pending_total,
                selected: final(self).selected,
                loaded: final(self).loaded,
                second: final(self).second,
                loaded2: final(self).loaded2,
                multi: final(self).multi,
                xy_cache: final(self).xy_cache,
                generation: final(self).generation,
                computed_for: final(self).computed_for,
                ..*old(self)
            }),
    {
        self.drop_files();
        self.pending.clear();
        self.pending_total = 0;
        self.generation = self.generation.wrapping_add(1);
    }

    /// Closes file `f`. A selection in it is dropped, and one in a later file moves down with its
    /// file. What is selected across files is left to `rebuild_multi`.
    pub fn close_file(&mut self, f: usize)
        requires
            old(self).wf(),
            f < old(self).files@.len(),
        ensures
            final(self).wf(),
            final(self).files@ == old(self).files@.remove(f as int),
            final(self).generation == next_generation(old(self).generation),
            final(self).computed_for is None,
            final(self).xy_cache is None,
            final(self).selected == sel_after_close(old(self).selected, f),
            final(self).loaded == loaded_after_close(old(self).loaded, f),
            final(self).second == sel_after_close(old(self).second, f),
            final(self).loaded2 == loaded_after_close(old(self).loaded2, f),
            final(self).multi@.len() == 0,
            *final(self) == (Session {
                files: final(self).files,
                generation: final(self).generation,
                computed_for: final(self).computed_for,
                xy_cache: final(self).xy_cache,
                selected: final(self).selected,
                loaded: final(self).loaded,
                second: final(self).second,
                loaded2: final(self).loaded2,
                multi: final(self).multi,
                ..*old(self)
            }),
    {
        let _ = self.files.remove(f);
        self.generation = self.generation.wrapping_add(1);
        self.computed_for = None;
        self.xy_cache = None;
        self.multi = Vec::new();
        self.selected = moved_sel(self.selected, f);
        self.loaded = moved_loaded(self.loaded.take(), f);
        self.second = moved_sel(self.second, f);
        self.loaded2 = moved_loaded(self.loaded2.take(), f);
        proof {
            let was = old(self).files@;
            let now = self.files@;
            assert(now =~= was.remove(f as int));
            assert forall|i: int| 0 <= i < now.len() implies (#[trigger] now[i]).tree.wf() by {
                assert(now[i] == was[if i < f { i } else { i + 1 }]);
            }
            assert forall|i: int, j: int| 0 <= i < j < now.len() implies !same_path(
                (#[trigger] now[i]).canon@,
                (#[trigger] now[j]).canon@,
            ) by {
                assert(now[i] == was[if i < f { i } else { i + 1 }]);
                assert(now[j] == was[if j < f { j } else { j + 1 }]);
            }
        }
    }

    /// Closes every file and what was selected in it.
    fn drop_files(&mut self)
        requires
            old(self).wf(),
        ensures
            final(self).wf(),
            final(self).files@.len() == 0,
            final(self).selected is None,
            final(self).loaded is None,
            final(self).second is None,
            final(self).loaded2 is None,
            final(self).multi@.len() == 0,
            final(self).xy_cache is None,
            final(self).computed_for is None,
            *final(self) == (Session {
                files: final(self).files,
                selected: final(self).selected,
                loaded: final(self).loaded,
                second: final(self).second,
                loaded2: final(self).loaded2,
                multi: final(self).multi,
                xy_cache: final(self).xy_cache,
                computed_for: final(self).computed_for,
                ..*old(self)
            }),
    {
        self.files = Vec::new();
        self.selected = None;
        self.loaded = None;
        self.second = None;
        self.loaded2 = None;
        self.multi = Vec::new();
        self.xy_cache = None;
        self.computed_for = None;
    }
}

/// A selection after file `f` was closed.
pub open spec fn sel_after_close(sel: Option<Sel>, f: usize) -> Option<Sel> {
    match sel {
        Some((sf, node)) => if sf == f {
            None
        } else if sf > f {
            Some(((sf - 1) as usize, node))
        } else {
            sel
        },
        None => None,
    }
}

/// What was loaded for a selection after file `f` was closed.
pub open spec fn loaded_after_close(loaded: Option<Loaded>, f: usize) -> Option<Loaded> {
    match loaded {
        Some(l) => if l.file == f {
            None
        } else if l.file > f {
            Some(Loaded { file: (l.file - 1) as usize, ..l })
        } else {
            loaded
        },
        None => None,
    }
}

fn moved_sel(sel: Option<Sel>, f: usize) -> (r: Option<Sel>)
    ensures
        r == sel_after_close(sel, f),
{
    match sel {
        Some((sf, node)) => if sf == f {
            None
        } else if sf > f {
            Some((sf - 1, node))
        } else {
            sel
        },
        None => None,
    }
}

fn moved_loaded(loaded: Option<Loaded>, f: usize) -> (r: Option<Loaded>)
    ensures
        r == loaded_after_close(loaded, f),
{
    match loaded {
        Some(l) => if l.file == f {
            None
        } else if l.file > f {
            let mut moved = l;
            moved.file = moved.file - 1;
            Some(moved)
        } else {
            Some(l)
        },
        None => None,
    }
}

/// Closing a file leaves every selection in another file on the same node of the same file.
pub proof fn closing_keeps_selections(files: Seq<OpenFile>, s: Sel, f: usize)
    requires
        f < files.len(),
        is_within(files, s),
        s.0 != f,
    ensures
        sel_after_close(Some(s), f) matches Some(t) && is_within(files.remove(f as int), t) && t.1
            == s.1 && files.remove(f as int)[t.0 as int] == files[s.0 as int],
{
}

proof fn adding_keeps_selections(
    kept: Seq<OpenFile>,
    now: Seq<OpenFile>,
    sel: Option<Sel>,
    loaded: Option<Loaded>,
)
    requires
        kept.len() <= now.len(),
        now.take(kept.len() as int) == kept,
        selection_fits(kept, sel, loaded),
    ensures
        selection_fits(now, sel, loaded),
{
    if let Some(s) = sel {
        assert(now.take(kept.len() as int)[s.0 as int] == now[s.0 as int]);
    }
}

proof fn adding_keeps_multi(kept: Seq<OpenFile>, now: Seq<OpenFile>, multi: Seq<Option<Loaded>>)
    requires
        kept.len() <= now.len(),
        now.take(kept.len() as int) == kept,
        multi_fits(kept, multi),
    ensures
        multi_fits(now, multi),
{
    assert forall|f: int| 0 <= f < multi.len() implies (#[trigger] multi[f] matches Some(l) ==> {
        &&& l.wf()
        &&& l.file == f
        &&& is_within(now, (l.file, l.node))
    }) by {
        assert(now.take(kept.len() as int)[f] == now[f]);
    }
}

// ---------------------------------------------------------------------------------------------
// Searching
// ---------------------------------------------------------------------------------------------

/// Whether only the matches of the files differ.
pub open spec fn same_trees(a: Seq<OpenFile>, b: Seq<OpenFile>) -> bool {
    &&& a.len() == b.len()
    &&& forall|i: int|
        0 <= i < a.len() ==> (#[trigger] a[i]).tree == b[i].tree && a[i].canon == b[i].canon
}

/// There are no more true entries than entries.
proof fn true_count_is_bounded(s: Seq<bool>)
    ensures
        true_count(s) <= s.len(),
    decreases s.len(),
{
    if s.len() > 0 {
        true_count_is_bounded(s.drop_last());
    }
}

/// The first files have no more nodes than all.
proof fn node_total_grows(files: Seq<OpenFile>, k: int)
    requires
        0 <= k <= files.len(),
    ensures
        node_total(files.take(k)) <= node_total(files),
    decreases files.len(),
{
    if k < files.len() {
        assert(files.drop_last().take(k) =~= files.take(k));
        node_total_grows(files.drop_last(), k);
    } else {
        assert(files.take(k) =~= files);
    }
}

impl Session {
    /// Whether the matches are up to date.
    pub open spec fn is_searched_now(&self) -> bool {
        self.computed_for matches Some((search, case_sensitive, generation)) && search@
            == self.search@ && case_sensitive == self.case_sensitive && generation
            == self.generation
    }

    /// Recomputes the per-file search matches if the query or the set of open files changed.
    pub fn update_filter(&mut self)
        requires
            old(self).wf(),
            node_total(old(self).files@) <= usize::MAX,
        ensures
            final(self).wf(),
            final(self).is_searched_now(),
            all_searched(final(self).files@, old(self).search@, old(self).case_sensitive),
            final(self).total_matches == match_total(final(self).files@),
            same_trees(old(self).files@, final(self).files@),
            old(self).is_searched_now() ==> *final(self) == *old(self),
            *final(self) == (Session {
                files: final(self).files,
                total_matches: final(self).total_matches,
                computed_for: final(self).computed_for,
                ..*old(self)
            }),
    {
        if let Some((search, case_sensitive, generation)) = &self.computed_for {
            if same_text(search.as_str(), self.search.as_str()) && *case_sensitive
                == self.case_sensitive && *generation == self.generation {
                return;
            }
        }
        let needle = if self.case_sensitive {
            self.search.clone()
        } else {
            to_lower(self.search.as_str())
        };
        let ghost was = self.files@;
        self.computed_for = None;
        let mut total: usize = 0;
        let mut i: usize = 0;
        assert(match_total(self.files@.take(0)) == 0);
        while i < self.files.len()
            invariant
                i <= self.files@.len(),
                *self == (Session {
                    files: self.files,
                    computed_for: self.computed_for,
                    ..*old(self)
                }),
                self.computed_for is None,
                was == old(self).files@,
                are_trees(was),
                same_trees(was, self.files@),
                node_total(was) <= usize::MAX,
                needle@ == needle_of(self.search@, self.case_sensitive),
                forall|j: int|
                    0 <= j < i ==> #[trigger] is_searched(
                        self.files@[j],
                        self.search@,
                        self.case_sensitive,
                    ),
                total == match_total(self.files@.take(i as int)),
                total <= node_total(was.take(i as int)),
            decreases self.files.len() - i,
        {
            let ghost before = self.files@;
            assert(before[i as int].tree == was[i as int].tree);
            assert(was[i as int].tree.wf());
            let m = find_matches(&self.files[i].tree, needle.as_str(), self.case_sensitive);
            let count: usize = m.match_count;
            proof {
                true_count_is_bounded(m.node_match@);
                node_total_grows(was, i + 1);
                assert(was.take(i + 1).drop_last() =~= was.take(i as int));
                assert(was.take(i + 1).last() == was[i as int]);
            }
            self.files[i].matches = m;
            proof {
                let now = self.files@;
                assert(now.take(i + 1).drop_last() =~= before.take(i as int));
                assert(now.take(i + 1).last() == now[i as int]);
                assert(is_searched(now[i as int], self.search@, self.case_sensitive));
                assert forall|j: int| 0 <= j < i implies #[trigger] is_searched(
                    now[j],
                    self.search@,
                    self.case_sensitive,
                ) by {
                    assert(now[j] == before[j]);
                }
            }
            total = total + count;
            i = i + 1;
        }
        assert(self.files@.take(i as int) =~= self.files@);
        self.total_matches = total;
        self.computed_for = Some((self.search.clone(), self.case_sensitive, self.generation));
        proof {
            searching_keeps_selections(was, self.files@, self.selected, self.loaded);
            searching_keeps_selections(was, self.files@, self.second, self.loaded2);
            assert(multi_fits(self.files@, self.multi@)) by {
                assert forall|f: int| 0 <= f < self.multi@.len() implies (
                #[trigger] self.multi@[f] matches Some(l) ==> {
                    &&& l.wf()
                    &&& l.file == f
                    &&& is_within(self.files@, (l.file, l.node))
                }) by {
                    assert(was[f].tree == self.files@[f].tree);
                }
            }
            assert(are_trees(self.files@)) by {
                assert forall|i: int| 0 <= i < self.files@.len() implies (
                #[trigger] self.files@[i]).tree.wf() by {
                    assert(was[i].tree == self.files@[i].tree);
                }
            }
            assert(are_distinct(self.files@)) by {
                assert forall|i: int, j: int|
                    0 <= i < j < self.files@.len() implies !same_path(
                    (#[trigger] self.files@[i]).canon@,
                    (#[trigger] self.files@[j]).canon@,
                ) by {
                    assert(was[i].canon == self.files@[i].canon);
                    assert(was[j].canon == self.files@[j].canon);
                }
            }
        }
    }

    /// Whether something is searched for.
    pub fn filter_active(&self) -> (r: bool)
        ensures
            r == (self.search@.len() > 0),
    {
        !self.search.as_str().is_empty()
    }
}

proof fn searching_keeps_selections(
    was: Seq<OpenFile>,
    now: Seq<OpenFile>,
    sel: Option<Sel>,
    loaded: Option<Loaded>,
)
    requires
        same_trees(was, now),
        selection_fits(was, sel, loaded),
    ensures
        selection_fits(now, sel, loaded),
{
    if let Some(s) = sel {
        assert(was[s.0 as int].tree == now[s.0 as int].tree);
    }
}

// ---------------------------------------------------------------------------------------------
// Selecting
// ---------------------------------------------------------------------------------------------

/// What a click on a node asks for.
#[derive(Clone, Copy, Debug, PartialEq, Eq, Structural)]
pub enum Click {
    /// Select this dataset.
    Select(usize),
    /// Select this dataset as the second one of a comparison, or drop it where it is that.
    SelectSecond(usize),
}

/// The dataset at a path of a file, where there is one.
pub open spec fn dataset_at(nodes: Seq<NodeView>, path: Seq<char>) -> Option<usize> {
    match node_at_path(nodes, path) {
        Some(i) => if nodes[i as int].is_group {
            None
        } else {
            Some(i)
        },
        None => None,
    }
}

/// The second selection after a dataset was picked as it.
pub open spec fn toggled(second: Option<Sel>, s: Sel) -> Option<Sel> {
    if second == Some(s) {
        None
    } else {
        Some(s)
    }
}

/// Picking the same dataset twice as the second one leaves none.
pub proof fn picking_twice_leaves_none(second: Option<Sel>, s: Sel)
    requires
        second != Some(s),
    ensures
        toggled(second, s) == Some(s),
        toggled(toggled(second, s), s) is None,
{
}

impl Session {
    /// What a click on node `idx` of file `file` asks for: clicking a group selects its `value`
    /// dataset when it has one; `ctrl` picks the second PV of a compare plot.
    pub fn click(&self, file: usize, idx: usize, ctrl: bool) -> (r: Option<Click>)
        requires
            self.wf(),
            is_within(self.files@, (file, idx)),
        ensures
            ({
                let tree = self.files@[file as int].tree;
                let target = if tree.nodes@[idx as int].is_group {
                    first_child_named(views(tree.nodes@), idx as int, "value"@)
                } else {
                    Some(idx)
                };
                r == match target {
                    Some(t) => if ctrl {
                        Some(Click::SelectSecond(t))
                    } else if self.selected != Some((file, t)) {
                        Some(Click::Select(t))
                    } else {
                        None
                    },
                    None => None,
                }
            }),
            r matches Some(Click::Select(t)) ==> is_within(self.files@, (file, t)),
            r matches Some(Click::SelectSecond(t)) ==> is_within(self.files@, (file, t)),
    {
        match click_target(&self.files[file].tree, idx) {
            Some(t) => if ctrl {
                Some(Click::SelectSecond(t))
            } else if !is_selection(self.selected, file, t) {
                Some(Click::Select(t))
            } else {
                None
            },
            None => None,
        }
    }

    /// Selects a dataset, given what was read of it. What is selected across files is left to
    /// `rebuild_multi`.
    pub fn select(&mut self, file: usize, node: usize, read: NodeRead)
        requires
            old(self).wf(),
            is_within(old(self).files@, (file, node)),
        ensures
            final(self).wf(),
            final(self).selected == Some((file, node)),
            final(self).loaded matches Some(l) && is_loaded(
                l,
                views(old(self).files@[file as int].tree.nodes@),
                file,
                node,
                read,
            ),
            final(self).xy_cache is None,
            final(self).multi@.len() == 0,
            *final(self) == (Session {
                selected: final(self).selected,
                loaded: final(self).loaded,
                xy_cache: final(self).xy_cache,
                multi: final(self).multi,
                ..*old(self)
            }),
    {
        let l = load_node(&self.files[file].tree, file, node, read);
        self.selected = Some((file, node));
        self.xy_cache = None;
        self.loaded = Some(l);
        self.multi = Vec::new();
    }

    /// Sets (or toggles off) the second PV of a compare plot. What was read of the dataset is
    /// needed where it is set.
    pub fn select_second(&mut self, file: usize, node: usize, read: Option<NodeRead>)
        requires
            old(self).wf(),
            is_within(old(self).files@, (file, node)),
            old(self).second != Some((file, node)) ==> read is Some,
        ensures
            final(self).wf(),
            final(self).second == toggled(old(self).second, (file, node)),
            match (final(self).second, final(self).loaded2, read) {
                (Some(_), Some(l), Some(r)) => is_loaded(
                    l,
                    views(old(self).files@[file as int].tree.nodes@),
                    file,
                    node,
                    r,
                ),
                (None, None, _) => true,
                _ => false,
            },
            final(self).xy_cache is None,
            *final(self) == (Session {
                second: final(self).second,
                loaded2: final(self).loaded2,
                xy_cache: final(self).xy_cache,
                ..*old(self)
            }),
    {
        self.xy_cache = None;
        if is_selection(self.second, file, node) {
            self.second = None;
            self.loaded2 = None;
        } else if let Some(read) = read {
            let l = load_node(&self.files[file].tree, file, node, read);
            self.second = Some((file, node));
            self.loaded2 = Some(l);
        }
    }

    /// Drops the second selection.
    pub fn clear_second(&mut self)
        requires
            old(self).wf(),
        ensures
            final(self).wf(),
            *final(self) == (Session { second: None, loaded2: None, xy_cache: None, ..*old(self) }),
    {
        self.second = None;
        self.loaded2 = None;
        self.xy_cache = None;
    }

    /// For each open file the dataset at the selected PV's path, where there is one; nothing
    /// without a selection or with fewer than two files.
    pub open spec fn multi_nodes(&self) -> Seq<Option<usize>> {
        match self.selected {
            Some((sf, sn)) => if self.files@.len() < 2 {
                Seq::empty()
            } else {
                Seq::new(
                    self.files@.len(),
                    |f: int|
                        dataset_at(
                            views(self.files@[f].tree.nodes@),
                            self.files@[sf as int].tree.nodes@[sn as int].path@,
                        ),
                )
            },
            None => Seq::empty(),
        }
    }

    /// The datasets to read for the cross-file compare view: for each open file the one at the
    /// selected PV's path (only meaningful with 2+ files).
    pub fn multi_plan(&self) -> (plan: Vec<Option<usize>>)
        requires
            self.wf(),
        ensures
            plan@ == self.multi_nodes(),
            forall|f: int|
                0 <= f < plan@.len() ==> (#[trigger] plan@[f] matches Some(n) ==> is_within(
                    self.files@,
                    (f as usize, n),
                )),
    {
        let mut plan: Vec<Option<usize>> = Vec::new();
        if let Some((sf, sn)) = self.selected {
            if self.files.len() >= 2 {
                let ghost nodes = self.multi_nodes();
                let path = self.files[sf].tree.nodes[sn].path.clone();
                let mut f: usize = 0;
                while f < self.files.len()
                    invariant
                        f <= self.files.len(),
                        self.wf(),
                        self.files.len() >= 2,
                        self.selected == Some((sf, sn)),
                        path@ == self.files@[sf as int].tree.nodes@[sn as int].path@,
                        nodes == self.multi_nodes(),
                        plan@.len() == f,
                        forall|k: int|
                            0 <= k < f ==> #[trigger] plan@[k] == nodes[k] && (
                            plan@[k] matches Some(n) ==> is_within(self.files@, (k as usize, n))),
                    decreases self.files.len() - f,
                {
                    let tree = &self.files[f].tree;
                    let found = match tree.node_by_path(path.as_str()) {
                        Some(i) => if tree.nodes[i].is_group {
                            None
                        } else {
                            Some(i)
                        },
                        None => None,
                    };
                    plan.push(found);
                    f = f + 1;
                }
                assert(plan@ =~= nodes);
            }
        }
        assert(plan@ =~= self.multi_nodes());
        plan
    }

    /// Sets what is selected across files, given what was read for `multi_plan`.
    pub fn rebuild_multi(&mut self, reads: Vec<Option<NodeRead>>)
        requires
            old(self).wf(),
            reads@.len() == old(self).multi_nodes().len(),
            forall|f: int|
                0 <= f < reads@.len() ==> (#[trigger] reads@[f]) is Some == old(
                    self,
                ).multi_nodes()[f] is Some,
        ensures
            final(self).wf(),
            final(self).multi@.len() == old(self).multi_nodes().len(),
            forall|f: int|
                0 <= f < reads@.len() ==> match (
                    #[trigger] final(self).multi@[f],
                    old(self).multi_nodes()[f],
                    reads@[f],
                ) {
                    (Some(l), Some(n), Some(read)) => is_loaded(
                        l,
                        views(old(self).files@[f].tree.nodes@),
                        f as usize,
                        n,
                        read,
                    ),
                    (None, None, None) => true,
                    _ => false,
                },
            *final(self) == (Session { multi: final(self).multi, ..*old(self) }),
    {
        let plan = self.multi_plan();
        let mut rest = reads;
        let mut multi: Vec<Option<Loaded>> = Vec::new();
        let ghost nodes = self.multi_nodes();
        assert(nodes.len() == 0 || nodes.len() == self.files@.len());
        let mut f: usize = 0;
        while f < plan.len()
            invariant
                f <= plan.len(),
                self.wf(),
                *self == *old(self),
                plan@ == nodes,
                nodes == self.multi_nodes(),
                nodes.len() == 0 || nodes.len() == self.files@.len(),
                forall|f: int|
                    0 <= f < plan@.len() ==> (#[trigger] plan@[f] matches Some(n) ==> is_within(
                        self.files@,
                        (f as usize, n),
                    )),
                rest@.len() == nodes.len(),
                reads@.len() == nodes.len(),
                forall|k: int| f <= k < nodes.len() ==> #[trigger] rest@[k] == reads@[k],
                forall|f: int| 0 <= f < reads@.len() ==> (#[trigger] reads@[f]) is Some == nodes[f] is Some,
                multi@.len() == f,
                forall|k: int|
                    0 <= k < f ==> match (#[trigger] multi@[k], nodes[k], reads@[k]) {
                        (Some(l), Some(n), Some(read)) => {
                            &&& l.wf()
                            &&& is_loaded(l, views(self.files@[k].tree.nodes@), k as usize, n, read)
                        },
                        (None, None, None) => true,
                        _ => false,
                    },
            decreases plan.len() - f,
        {
            let ghost before = rest@;
            let read = rest[f].take();
            assert(read == reads@[f as int]);
            let entry = match (plan[f], read) {
                (Some(n), Some(read)) => {
                    assert(plan@[f as int] is Some);
                    Some(load_node(&self.files[f].tree, f, n, read))
                },
                _ => None,
            };
            multi.push(entry);
            f = f + 1;
        }
        self.multi = multi;
        assert forall|f: int| 0 <= f < multi@.len() implies (#[trigger] multi@[f] matches Some(l)
            ==> {
            &&& l.wf()
            &&& l.file == f
            &&& is_within(self.files@, (l.file, l.node))
        }) by {
            assert(plan@[f] == nodes[f]);
        }
    }

    /// Whether the two selected PVs are both plottable.
    pub open spec fn compares(&self) -> bool {
        self.loaded is Some && self.loaded2 is Some && self.loaded->0.is_plottable()
            && self.loaded2->0.is_plottable()
    }

    /// Whether the pairing at hand is for the axes as they are.
    pub open spec fn has_pairing(&self) -> bool {
        self.xy_cache matches Some(c) && c.key.2 == self.swap_xy
    }

    /// Whether the two selected PVs, where both are plottable, can be paired as the axes are.
    pub open spec fn can_pair_selected(&self) -> bool {
        self.compares() ==> if self.swap_xy {
            can_pair(self.loaded2->0, self.loaded->0)
        } else {
            can_pair(self.loaded->0, self.loaded2->0)
        }
    }

    /// Whether the two selected PVs, where both are plottable, can be paired as the axes are.
    pub fn pairable_selection(&self) -> (r: bool)
        ensures
            r == self.can_pair_selected(),
    {
        match (&self.loaded, &self.loaded2) {
            (Some(a), Some(b)) => if a.plottable() && b.plottable() {
                if self.swap_xy {
                    pairable(b, a)
                } else {
                    pairable(a, b)
                }
            } else {
                true
            },
            _ => true,
        }
    }

    /// (Re)builds the x-y pairing when the compare selection changed (interpolating hundreds of
    /// thousands of points every frame would not keep the UI at 60 fps).
    pub fn ensure_xy_cache(&mut self)
        requires
            old(self).wf(),
            old(self).has_pairing() || old(self).can_pair_selected(),
        ensures
            final(self).wf(),
            *final(self) == (Session { xy_cache: final(self).xy_cache, ..*old(self) }),
            !old(self).compares() ==> *final(self) == *old(self),
            old(self).compares() ==> (final(self).xy_cache matches Some(c) && is_pairing(
                c,
                old(self).loaded->0,
                old(self).loaded2->0,
                old(self).swap_xy,
            )),
            old(self).has_pairing() ==> *final(self) == *old(self),
    {
        if let (Some(a), Some(b)) = (&self.loaded, &self.loaded2) {
            if a.plottable() && b.plottable() {
                let key = (a.sel(), b.sel(), self.swap_xy);
                let fresh = match &self.xy_cache {
                    Some(c) => same_key(c.key, key),
                    None => false,
                };
                if !fresh {
                    let c = build_xy(a, b, self.swap_xy);
                    self.xy_cache = Some(c);
                }
            }
        }
    }

    // -----------------------------------------------------------------------------------------
    // Names and places
    // -----------------------------------------------------------------------------------------

    /// The path of the first open file.
    pub open spec fn first_path(&self) -> Option<Seq<char>> {
        if self.files@.len() > 0 {
            Some(self.files@[0].tree.file_path@)
        } else {
            None
        }
    }

    /// The path of the first open file.
    fn first_file(&self) -> (r: Option<&FilePath>)
        ensures
            match r {
                Some(p) => self.first_path() == Some(p@),
                None => self.first_path() is None,
            },
    {
        if self.files.len() > 0 {
            Some(&self.files[0].tree.file_path)
        } else {
            None
        }
    }

    /// Directory to pre-fill popups and dialogs with: the first open file's, else the most recent
    /// one's.
    pub fn default_dir(&self, recent: &Vec<FilePath>) -> (r: Option<FilePath>)
        ensures
            match r {
                Some(p) => start_dir(self.first_path(), views(recent@)) == Some(p@),
                None => start_dir(self.first_path(), views(recent@)) is None,
            },
    {
        default_dir(self.first_file(), recent)
    }

    /// Instrument root (e.g. /SNS/VENUS) whose IPTS-* directories the run search scans: taken from
    /// the current or recent file's path, VENUS otherwise.
    pub fn instrument_root(&self, recent: &Vec<FilePath>) -> (r: FilePath)
        ensures
            r@ == search_root(self.first_path(), views(recent@)),
    {
        instrument_root(self.first_file(), recent)
    }

    /// The title of the window.
    pub fn title(&self) -> (s: String)
        ensures
            s@ == window_title(
                Seq::new(self.files@.len(), |i: int| self.files@[i].tree.file_path@),
            ),
    {
        let mut paths: Vec<&FilePath> = Vec::new();
        let mut i: usize = 0;
        while i < self.files.len()
            invariant
                i <= self.files.len(),
                paths@.len() == i,
                forall|j: int| 0 <= j < i ==> #[trigger] paths@[j]@ == self.files@[j].tree.file_path@,
            decreases self.files.len() - i,
        {
            paths.push(&self.files[i].tree.file_path);
            i = i + 1;
        }
        assert(Seq::new(paths@.len(), |i: int| paths@[i]@) =~= Seq::new(
            self.files@.len(),
            |i: int| self.files@[i].tree.file_path@,
        ));
        title_of(&paths)
    }

    /// The short names of the open files.
    pub fn file_labels(&self) -> (labels: Vec<String>)
        ensures
            labels@.len() == self.files@.len(),
            forall|f: int|
                0 <= f < labels@.len() ==> (#[trigger] labels@[f])@ == short_name(
                    self.files@[f].tree.file_path@,
                ),
    {
        let mut labels: Vec<String> = Vec::new();
        let mut f: usize = 0;
        while f < self.files.len()
            invariant
                f <= self.files.len(),
                labels@.len() == f,
                forall|k: int|
                    0 <= k < f ==> (#[trigger] labels@[k])@ == short_name(
                        self.files@[k].tree.file_path@,
                    ),
            decreases self.files.len() - f,
        {
            labels.push(file_label(&self.files[f].tree.file_path));
            f = f + 1;
        }
        labels
    }
}

/// In the cross-file view the selected dataset's own file shows that dataset.
pub proof fn selection_shows_in_its_file(s: Session)
    requires
        s.wf(),
        s.files@.len() >= 2,
        s.selected matches Some((sf, sn)) && {
            let nodes = views(s.files@[sf as int].tree.nodes@);
            are_named(nodes) && nodes.len() <= usize::MAX && !nodes[sn as int].is_group
        },
    ensures
        s.selected matches Some((sf, sn)) && s.multi_nodes()[sf as int] == Some(sn),
{
    if let Some((sf, sn)) = s.selected {
        let nodes = views(s.files@[sf as int].tree.nodes@);
        assert(s.files@[sf as int].tree.wf());
        path_leads_to_node(nodes, sn as int);
        assert(nodes[sn as int] == s.files@[sf as int].tree.nodes@[sn as int]@);
    }
}

// ---------------------------------------------------------------------------------------------
// Laws
// ---------------------------------------------------------------------------------------------

/// With several files open, the selected PV is shown for every one of them, before and after its
/// own: where the first node of a file with the selected path is a dataset, the plan has that
/// node, and it has none only where there is no such dataset.
pub proof fn every_file_shows_the_selection(s: Session, f: int, n: int)
    requires
        s.wf(),
        s.files@.len() >= 2,
        s.selected is Some,
        0 <= f < s.files@.len(),
        ({
            let nodes = s.files@[f].tree.nodes@;
            let path = s.files@[(s.selected->0).0 as int].tree.nodes@[(s.selected->0).1 as int].path@;
            &&& 0 <= n <= nodes.len() <= usize::MAX
            &&& forall|j: int| 0 <= j < n ==> (#[trigger] nodes[j]).path@ != path
            &&& n < nodes.len() ==> nodes[n].path@ == path
        }),
    ensures
        s.multi_nodes().len() == s.files@.len(),
        ({
            let nodes = s.files@[f].tree.nodes@;
            &&& n < nodes.len() && !nodes[n].is_group ==> s.multi_nodes()[f] == Some(n as usize)
            &&& n < nodes.len() && nodes[n].is_group ==> s.multi_nodes()[f] is None
            &&& n == nodes.len() ==> s.multi_nodes()[f] is None
        }),
{
    let nodes = views(s.files@[f].tree.nodes@);
    let path = s.files@[(s.selected->0).0 as int].tree.nodes@[(s.selected->0).1 as int].path@;
    assert forall|j: int| 0 <= j < n implies (#[trigger] nodes[j]).path != path by {
        assert(s.files@[f].tree.nodes@[j].path@ != path);
    }
    first_node_at_path_is_found(nodes, path, n);
}

/// Without a selection, or with fewer than two files, there is nothing to show across files.
pub proof fn single_files_have_no_plan(s: Session)
    ensures
        s.selected is None || s.files@.len() < 2 ==> s.multi_nodes().len() == 0,
{
}

/// Opening the same files in another order leaves what each of them shows: what a file shows
/// depends on its own nodes and the selected path alone.
pub proof fn files_show_their_own_datasets(s: Session, t: Session, f: int, g: int)
    requires
        s.wf(),
        t.wf(),
        s.files@.len() >= 2,
        t.files@.len() >= 2,
        s.selected is Some,
        t.selected is Some,
        0 <= f < s.files@.len(),
        0 <= g < t.files@.len(),
        s.files@[f].tree == t.files@[g].tree,
        s.files@[(s.selected->0).0 as int].tree.nodes@[(s.selected->0).1 as int].path@
            == t.files@[(t.selected->0).0 as int].tree.nodes@[(t.selected->0).1 as int].path@,
    ensures
        s.multi_nodes()[f] == t.multi_nodes()[g],
{
}

/// Closing a file drops a selection in it, leaves one before it where it is, and moves one behind
/// it down by one; what was loaded goes with it.
pub proof fn closing_moves_later_selections(file: usize, node: usize, l: Loaded, f: usize)
    requires
        l.file == file,
    ensures
        file == f ==> sel_after_close(Some((file, node)), f) is None && loaded_after_close(
            Some(l),
            f,
        ) is None,
        file < f ==> sel_after_close(Some((file, node)), f) == Some((file, node))
            && loaded_after_close(Some(l), f) == Some(l),
        file > f ==> sel_after_close(Some((file, node)), f) == Some(((file - 1) as usize, node))
            && loaded_after_close(Some(l), f) == Some(Loaded { file: (file - 1) as usize, ..l }),
        sel_after_close(None, f) is None,
        loaded_after_close(None, f) is None,
{
}

/// The matches of all files are those of each added up, whatever their order.
pub proof fn matches_add_up(a: Seq<OpenFile>, b: Seq<OpenFile>, f: OpenFile)
    ensures
        match_total(a + b) == match_total(a) + match_total(b),
        match_total(seq![f]) == f.matches.match_count,
        match_total(Seq::<OpenFile>::empty()) == 0,
        node_total(a + b) == node_total(a) + node_total(b),
        node_total(seq![f]) == f.tree.nodes@.len(),
        node_total(Seq::<OpenFile>::empty()) == 0,
    decreases b.len(),
{
    assert(seq![f].drop_last() =~= Seq::empty());
    assert(match_total(seq![f].drop_last()) == 0);
    assert(node_total(seq![f].drop_last()) == 0);
    if b.len() > 0 {
        matches_add_up(a, b.drop_last(), f);
        assert((a + b).drop_last() =~= a + b.drop_last());
        assert((a + b).last() == b.last());
    } else {
        assert(a + b =~= a);
    }
}

/// Every change of the open files gives another generation, and the next one is one more.
pub proof fn generations_differ(g: u64)
    ensures
        next_generation(g) != g,
        g < u64::MAX ==> next_generation(g) == g + 1,
{
}

/// In a searched file a node other than the root matches exactly where its name holds the text that
/// is searched for: as it is, or both in lower case.
pub proof fn searched_files_have_their_matches(
    f: OpenFile,
    search: Seq<char>,
    case_sensitive: bool,
    i: int,
)
    requires
        f.tree.wf(),
        is_searched(f, search, case_sensitive),
        0 < i < f.tree.nodes@.len(),
    ensures
        case_sensitive && search.len() > 0 ==> (f.matches.node_match@[i] <==> exists|
            a: Seq<char>,
            b: Seq<char>,
        |
            f.tree.nodes@[i].name@ == #[trigger] (a + search + b)),
        !case_sensitive && lowercase(search).len() > 0 ==> (f.matches.node_match@[i] <==> exists|
            a: Seq<char>,
            b: Seq<char>,
        |
            lowercase(f.tree.nodes@[i].name@) == #[trigger] (a + lowercase(search) + b)),
        f.matches.match_count == Set::new(
            |k: int| 0 <= k < f.tree.nodes@.len() && f.matches.node_match@[k],
        ).len(),
{
    let nodes = views(f.tree.nodes@);
    let needle = needle_of(search, case_sensitive);
    assert(nodes[i] == f.tree.nodes@[i]@);
    assert(is_lowered(nodes, i));
    if needle.len() > 0 {
        names_that_hold_the_text_match(f.matches, nodes, needle, case_sensitive, i);
    }
    match_count_is_of_the_matches(f.matches, nodes, needle, case_sensitive);
    assert(Set::new(|k: int| 0 <= k < f.tree.nodes@.len() && f.matches.node_match@[k]) =~= Set::new(
        |k: int| 0 <= k < nodes.len() && f.matches.node_match@[k],
    ));
}

/// A file counts as open under any spelling of its path.
pub proof fn open_files_are_known_by_path(s: Session, canon: Seq<char>, i: int)
    requires
        0 <= i < s.files@.len(),
    ensures
        path_parts(s.files@[i].canon@) == path_parts(canon) ==> s.has_file(canon),
        s.files@[i].canon@ == canon ==> s.has_file(canon),
        s.has_file(canon) ==> exists|j: int|
            0 <= j < s.files@.len() && path_parts((#[trigger] s.files@[j]).canon@) == path_parts(
                canon,
            ),
{
    if path_parts(s.files@[i].canon@) == path_parts(canon) {
        assert(same_path(s.files@[i].canon@, canon));
    }
    if s.has_file(canon) {
        let j = choose|j: int|
            0 <= j < s.files@.len() && same_path((#[trigger] s.files@[j]).canon@, canon);
        assert(path_parts(s.files@[j].canon@) == path_parts(canon));
    }
}

/// No two open files have the same path, every selection is a node of an open file with what was
/// loaded for it, and a pairing at hand is of the two selections.
pub proof fn sessions_hold_together(s: Session, i: int, j: int)
    requires
        s.wf(),
    ensures
        0 <= i < j < s.files@.len() ==> path_parts(s.files@[i].canon@) != path_parts(
            s.files@[j].canon@,
        ),
        0 <= i < s.files@.len() ==> s.files@[i].tree.wf(),
        s.selected is Some == s.loaded is Some,
        s.second is Some == s.loaded2 is Some,
        s.selected matches Some((f, n)) ==> {
            &&& f < s.files@.len()
            &&& n < s.files@[f as int].tree.nodes@.len()
            &&& s.loaded->0.file == f
            &&& s.loaded->0.node == n
        },
        s.second matches Some((f, n)) ==> {
            &&& f < s.files@.len()
            &&& n < s.files@[f as int].tree.nodes@.len()
            &&& s.loaded2->0.file == f
            &&& s.loaded2->0.node == n
        },
        0 <= i < s.multi@.len() ==> i < s.files@.len() && (s.multi@[i] matches Some(l) ==> l.file == i
            && l.node < s.files@[i].tree.nodes@.len()),
        s.xy_cache matches Some(c) ==> s.selected == Some(c.key.0) && s.second == Some(c.key.1),
        s.pending@.len() <= s.pending_total,
{
    if 0 <= i < j < s.files@.len() {
        assert(!same_path(s.files@[i].canon@, s.files@[j].canon@));
    }
    if 0 <= i < s.multi@.len() {
        assert(s.multi@[i] matches Some(l) ==> is_within(s.files@, (l.file, l.node)));
    }
}

/// Matches that a session holds as computed are those of all its files, and their number is the
/// total.
pub proof fn computed_matches_are_current(s: Session, i: int)
    requires
        s.wf(),
        s.computed_for is Some,
        0 <= i < s.files@.len(),
    ensures
        is_searched(s.files@[i], (s.computed_for->0).0@, (s.computed_for->0).1),
        (s.computed_for->0).2 == s.generation,
        s.total_matches >= s.files@[i].matches.match_count,
{
    assert(is_searched(s.files@[i], (s.computed_for->0).0@, (s.computed_for->0).1));
    let (a, b) = (s.files@.take(i), s.files@.skip(i + 1));
    let one = seq![s.files@[i]];
    assert(a + one + b =~= s.files@);
    matches_add_up(a + one, b, s.files@[i]);
    matches_add_up(a, one, s.files@[i]);
}

/// Two selected PVs are compared where both have more than one number, and the pairing at hand
/// serves where it is for the axes as they are.
pub proof fn series_are_compared(s: Session)
    ensures
        s.compares() <==> {
            &&& s.loaded matches Some(a) && a.y@.len() > 1
            &&& s.loaded2 matches Some(b) && b.y@.len() > 1
        },
        s.has_pairing() <==> (s.xy_cache matches Some(c) && c.key.2 == s.swap_xy),
        s.loaded is None || s.loaded2 is None ==> s.can_pair_selected(),
        s.compares() && !s.swap_xy ==> s.can_pair_selected() == can_pair(s.loaded->0, s.loaded2->0),
        s.compares() && s.swap_xy ==> s.can_pair_selected() == can_pair(s.loaded2->0, s.loaded->0),
        s.files@.len() > 0 ==> s.first_path() == Some(s.files@[0].tree.file_path@),
        s.files@.len() == 0 ==> s.first_path() is None,
{
}

/// Matches are current where they were computed for what is searched for now and for the files that
/// are open now, and a search changes nothing of the files but their matches.
pub proof fn searches_leave_the_files(s: Session, a: Seq<OpenFile>, b: Seq<OpenFile>, i: int)
    requires
        same_trees(a, b),
        0 <= i < a.len(),
    ensures
        a.len() == b.len(),
        a[i].tree == b[i].tree,
        a[i].canon == b[i].canon,
        s.is_searched_now() <==> (s.computed_for matches Some(c) && c.0@ == s.search@ && c.1
            == s.case_sensitive && c.2 == s.generation),
        all_searched(a, s.search@, s.case_sensitive) ==> is_searched(
            a[i],
            s.search@,
            s.case_sensitive,
        ),
{
    assert(a[i].tree == b[i].tree && a[i].canon == b[i].canon);
}

} // verus!
