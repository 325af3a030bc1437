//! Finding the NeXus files of runs, in one directory or over all experiments of an instrument.

use crate::order::{
    comes_before, stable_order, stable_order_exists, stable_order_is_onto, stable_order_of, views,
    Ranked,
};
use crate::path::{
    entry_of, experiment_name, is_experiment_name, parent_of, path_at_most, path_parts, FilePath,
    PartView,
};
use crate::runs::{
    asked_runs, asks_for, is_asked_for, merged_run_count, trailing_number, trailing_number_of,
    trailing_number_reads_back,
};
use crate::text::{
    before_suffix, decimal, decimal_reads_back, ends_with, is_digit, starts_with, to_decimal,
};
use vstd::prelude::*;
use vstd::string::*;

verus! {

// ---------------------------------------------------------------------------------------------
// File names
// ---------------------------------------------------------------------------------------------

/// The extensions of NeXus files, in the order in which they are tried: ".nxs.h5" must come
/// before ".h5".
pub open spec fn nexus_exts() -> Seq<Seq<char>> {
    seq![".nxs.h5"@, ".nxs"@, ".h5"@, ".hdf5"@, ".nx5"@]
}

/// A file name without the first of the extensions that it ends with.
pub open spec fn stem_without(name: Seq<char>, exts: Seq<Seq<char>>) -> Option<Seq<char>>
    decreases exts.len(),
{
    if exts.len() == 0 {
        None
    } else if ends_with(name, exts[0]) {
        Some(name.take(name.len() - exts[0].len()))
    } else {
        stem_without(name, exts.skip(1))
    }
}

/// The name of a NeXus file without its extension.
pub open spec fn stem_of(name: Seq<char>) -> Option<Seq<char>> {
    stem_without(name, nexus_exts())
}

/// The run that a NeXus file belongs to: the number before its extension.
pub open spec fn run_of_name(name: Seq<char>) -> Option<u64> {
    match stem_of(name) {
        Some(stem) => trailing_number_of(stem),
        None => None,
    }
}

/// The extensions, tried one after the other.
proof fn stem_of_unfolded(name: Seq<char>)
    ensures
        stem_of(name) == if ends_with(name, ".nxs.h5"@) {
            Some(name.take(name.len() - ".nxs.h5"@.len()))
        } else if ends_with(name, ".nxs"@) {
            Some(name.take(name.len() - ".nxs"@.len()))
        } else if ends_with(name, ".h5"@) {
            Some(name.take(name.len() - ".h5"@.len()))
        } else if ends_with(name, ".hdf5"@) {
            Some(name.take(name.len() - ".hdf5"@.len()))
        } else if ends_with(name, ".nx5"@) {
            Some(name.take(name.len() - ".nx5"@.len()))
        } else {
            None
        },
{
    let e = nexus_exts();
    reveal_with_fuel(stem_without, 6);
    assert(e.skip(1)[0] == e[1]);
    assert(e.skip(1).skip(1)[0] == e[2]);
    assert(e.skip(1).skip(1).skip(1)[0] == e[3]);
    assert(e.skip(1).skip(1).skip(1).skip(1)[0] == e[4]);
    assert(e.skip(1).skip(1).skip(1).skip(1).skip(1).len() == 0);
}

/// The run that a NeXus file belongs to: the number before its extension.
pub fn run_of_file(name: &str) -> (r: Option<u64>)
    ensures
        r == run_of_name(name@),
{
    proof {
        stem_of_unfolded(name@);
    }
    if let Some(stem) = before_suffix(name, ".nxs.h5") {
        trailing_number(stem.as_str())
    } else if let Some(stem) = before_suffix(name, ".nxs") {
        trailing_number(stem.as_str())
    } else if let Some(stem) = before_suffix(name, ".h5") {
        trailing_number(stem.as_str())
    } else if let Some(stem) = before_suffix(name, ".hdf5") {
        trailing_number(stem.as_str())
    } else if let Some(stem) = before_suffix(name, ".nx5") {
        trailing_number(stem.as_str())
    } else {
        None
    }
}

/// The last characters of a text that ends with `part` are those of `part`.
proof fn suffix_char(s: Seq<char>, part: Seq<char>, back: int)
    requires
        ends_with(s, part),
        0 < back <= part.len(),
    ensures
        s[s.len() - back] == part[part.len() - back],
{
    let at = s.len() - part.len();
    assert(s.subrange(at, s.len() as int)[part.len() - back] == s[s.len() - back]);
}

/// A run number written before any of the extensions, and after something that is no digit, is
/// the run that the file belongs to.
pub proof fn run_name_reads_back(prefix: Seq<char>, n: u64, ext: int)
    requires
        prefix.len() == 0 || !is_digit(prefix.last()),
        0 <= ext < nexus_exts().len(),
    ensures
        run_of_name(prefix + decimal(n as nat) + nexus_exts()[ext]) == Some(n),
{
    let stem = prefix + decimal(n as nat);
    let e = nexus_exts()[ext];
    let name = stem + e;
    decimal_reads_back(n as nat);
    trailing_number_reads_back(prefix, n);
    assert(name.subrange(name.len() - e.len(), name.len() as int) =~= e);
    assert(ends_with(name, e));
    assert(name.take(name.len() - e.len()) =~= stem);
    assert(is_digit(stem.last()));
    assert(name[name.len() - e.len() - 1] == stem.last());
    stem_of_unfolded(name);
    reveal_strlit(".nxs.h5");
    reveal_strlit(".nxs");
    reveal_strlit(".h5");
    reveal_strlit(".hdf5");
    reveal_strlit(".nx5");
    assert forall|back: int| 0 < back <= e.len() implies #[trigger] name[name.len() - back]
        == e[e.len() - back] by {}
    assert(name[name.len() - 1] == e[e.len() - 1]);
    assert(name[name.len() - 2] == e[e.len() - 2]);
    assert(name[name.len() - 3] == e[e.len() - 3]);
    if ends_with(name, ".nxs.h5"@) && ext != 0 {
        suffix_char(name, ".nxs.h5"@, 1);
        suffix_char(name, ".nxs.h5"@, 2);
        suffix_char(name, ".nxs.h5"@, 3);
        suffix_char(name, ".nxs.h5"@, 4);
        assert(ext == 2);
        assert(name[name.len() - 4] == stem.last());
        assert(false);
    }
    if ends_with(name, ".nxs"@) && ext != 1 {
        suffix_char(name, ".nxs"@, 1);
        assert(false);
    }
    if ends_with(name, ".h5"@) && ext != 2 && ext != 0 {
        suffix_char(name, ".h5"@, 1);
        suffix_char(name, ".h5"@, 2);
        assert(false);
    }
    if ends_with(name, ".hdf5"@) && ext != 3 {
        suffix_char(name, ".hdf5"@, 1);
        suffix_char(name, ".hdf5"@, 2);
        assert(false);
    }
    if ends_with(name, ".nx5"@) && ext != 4 {
        suffix_char(name, ".nx5"@, 1);
        suffix_char(name, ".nx5"@, 2);
        assert(false);
    }
}

// ---------------------------------------------------------------------------------------------
// One directory
// ---------------------------------------------------------------------------------------------

/// The files of a directory that belong to a run asked for, each with its run.
pub open spec fn run_hits(
    dir: Seq<char>,
    names: Seq<Seq<char>>,
    ranges: Seq<(u64, u64)>,
) -> Seq<(u64, Seq<char>)>
    decreases names.len(),
{
    if names.len() == 0 {
        Seq::empty()
    } else {
        let before = run_hits(dir, names.drop_last(), ranges);
        match run_of_name(names.last()) {
            Some(n) => if asks_for(ranges, n as int) {
                before.push((n, entry_of(dir, names.last())))
            } else {
                before
            },
            None => before,
        }
    }
}

/// The files of `hits` by run number, and by path where the runs are level.
pub open spec fn files_by_run(hits: Seq<(u64, Seq<char>)>) -> Seq<Seq<char>> {
    let order = stable_order_of::<(u64, FilePath)>(hits);
    Seq::new(hits.len(), |k: int| hits[order[k] as int].1)
}

/// A file of the directory whose run is asked for is among the hits.
proof fn run_hits_are_complete(
    dir: Seq<char>,
    names: Seq<Seq<char>>,
    ranges: Seq<(u64, u64)>,
    i: int,
)
    requires
        0 <= i < names.len(),
        run_of_name(names[i]) is Some,
        asks_for(ranges, run_of_name(names[i])->0 as int),
    ensures
        run_hits(dir, names, ranges).contains(
            (run_of_name(names[i])->0, entry_of(dir, names[i])),
        ),
    decreases names.len(),
{
    let hits = run_hits(dir, names, ranges);
    let wanted = (run_of_name(names[i])->0, entry_of(dir, names[i]));
    if i == names.len() - 1 {
        assert(hits.last() == wanted);
        assert(hits[hits.len() - 1] == wanted);
    } else {
        let before = run_hits(dir, names.drop_last(), ranges);
        run_hits_are_complete(dir, names.drop_last(), ranges, i);
        let k = choose|k: int| 0 <= k < before.len() && before[k] == wanted;
        assert(hits[k] == wanted);
    }
}

/// Whether `hit` is entry `i` of the directory with its run, which is asked for.
pub open spec fn is_run_hit(
    dir: Seq<char>,
    names: Seq<Seq<char>>,
    ranges: Seq<(u64, u64)>,
    i: int,
    hit: (u64, Seq<char>),
) -> bool {
    &&& 0 <= i < names.len()
    &&& run_of_name(names[i]) == Some(hit.0)
    &&& asks_for(ranges, hit.0 as int)
    &&& hit.1 == entry_of(dir, names[i])
}

/// Every hit is a file of the directory whose run is asked for.
proof fn run_hits_are_asked_for(
    dir: Seq<char>,
    names: Seq<Seq<char>>,
    ranges: Seq<(u64, u64)>,
    k: int,
) -> (i: int)
    requires
        0 <= k < run_hits(dir, names, ranges).len(),
    ensures
        is_run_hit(dir, names, ranges, i, run_hits(dir, names, ranges)[k]),
        run_hits(dir, names, ranges).len() <= names.len(),
    decreases names.len(),
{
    let before = run_hits(dir, names.drop_last(), ranges);
    if before.len() > 0 {
        let _ = run_hits_are_asked_for(dir, names.drop_last(), ranges, 0);
    }
    if k < before.len() {
        run_hits_are_asked_for(dir, names.drop_last(), ranges, k)
    } else {
        names.len() - 1
    }
}

/// The files found in a directory are exactly those whose run is asked for.
pub proof fn found_files_are_those_asked_for(
    dir: Seq<char>,
    names: Seq<Seq<char>>,
    ranges: Seq<(u64, u64)>,
    file: Seq<char>,
)
    requires
        names.len() <= usize::MAX,
    ensures
        files_by_run(run_hits(dir, names, ranges)).contains(file) <==> exists|i: int, n: u64|
            is_run_hit(dir, names, ranges, i, (n, file)),
{
    let hits = run_hits(dir, names, ranges);
    let files = files_by_run(hits);
    let order = stable_order_of::<(u64, FilePath)>(hits);
    if hits.len() > 0 {
        let _ = run_hits_are_asked_for(dir, names, ranges, 0);
    }
    stable_order_exists::<(u64, FilePath)>(hits);
    if exists|i: int, n: u64| is_run_hit(dir, names, ranges, i, (n, file)) {
        let (i, n) = choose|i: int, n: u64| is_run_hit(dir, names, ranges, i, (n, file));
        run_hits_are_complete(dir, names, ranges, i);
        let h = choose|h: int| 0 <= h < hits.len() && hits[h] == (n, file);
        stable_order_is_onto::<(u64, FilePath)>(hits, order, h);
        let k = choose|k: int| 0 <= k < order.len() && #[trigger] order[k] == h;
        assert(files[k] == file);
    }
    if files.contains(file) {
        let k = choose|k: int| 0 <= k < files.len() && files[k] == file;
        let h = order[k] as int;
        let i = run_hits_are_asked_for(dir, names, ranges, h);
        assert(is_run_hit(dir, names, ranges, i, (hits[h].0, file)));
    }
}

/// The files found in a directory are sorted by run number.
pub proof fn found_files_are_sorted(hits: Seq<(u64, Seq<char>)>, k: int, l: int)
    requires
        hits.len() <= usize::MAX,
        0 <= k < l < hits.len(),
    ensures
        ({
            let order = stable_order_of::<(u64, FilePath)>(hits);
            &&& files_by_run(hits)[k] == hits[order[k] as int].1
            &&& files_by_run(hits)[l] == hits[order[l] as int].1
            &&& hits[order[k] as int].0 <= hits[order[l] as int].0
        }),
{
    let order = stable_order_of::<(u64, FilePath)>(hits);
    stable_order_exists::<(u64, FilePath)>(hits);
    assert(comes_before::<(u64, FilePath)>(hits, order[k] as int, order[l] as int));
}

/// NeXus files among the entries `names` of `dir` whose name ends in a run number falling in one
/// of `ranges` (e.g. VENUS_26871.nxs.h5), sorted by run number.
pub fn find_run_files(dir: &FilePath, names: &Vec<String>, ranges: &[(u64, u64)]) -> (r: Vec<
    FilePath,
>)
    ensures
        views(r@) == files_by_run(run_hits(dir@, views(names@), ranges@)),
{
    let ghost all = views(names@);
    let mut hits: Vec<(u64, FilePath)> = Vec::new();
    let mut i: usize = 0;
    assert(views(hits@) =~= run_hits(dir@, all.take(0), ranges@));
    while i < names.len()
        invariant
            all == views(names@),
            i <= names.len(),
            views(hits@) == run_hits(dir@, all.take(i as int), ranges@),
        decreases names.len() - i,
    {
        assert(all.take(i + 1).drop_last() =~= all.take(i as int));
        assert(all.take(i + 1).last() == names@[i as int]@);
        let ghost before = views(hits@);
        if let Some(n) = run_of_file(names[i].as_str()) {
            if is_asked_for(ranges, n) {
                hits.push((n, dir.entry(names[i].as_str())));
                assert(views(hits@) =~= before.push(
                    (n, entry_of(dir@, names@[i as int]@)),
                ));
            }
        }
        i = i + 1;
    }
    assert(all.take(i as int) =~= all);
    let order = stable_order(&hits);
    let mut r: Vec<FilePath> = Vec::new();
    let mut k: usize = 0;
    while k < order.len()
        invariant
            k <= order.len(),
            order@.len() == hits@.len(),
            forall|j: int| 0 <= j < order@.len() ==> 0 <= #[trigger] order@[j] < hits@.len(),
            r.len() == k,
            forall|j: int| 0 <= j < k ==> (#[trigger] r@[j])@ == hits@[order@[j] as int].1@,
        decreases order.len() - k,
    {
        assert(order@[k as int] < hits@.len());
        r.push(hits[order[k]].1.clone());
        k = k + 1;
    }
    assert(views(r@) =~= files_by_run(views(hits@)));
    r
}

// ---------------------------------------------------------------------------------------------
// All experiments of an instrument
// ---------------------------------------------------------------------------------------------

/// A directory of the instrument: its name and the entries of its `nexus` directory.
#[derive(Debug)]
pub struct RunDir {
    pub name: String,
    pub files: Vec<String>,
}

/// What a directory of the instrument holds, in terms of characters.
pub struct RunDirView {
    pub name: Seq<char>,
    pub files: Seq<Seq<char>>,
}

impl View for RunDir {
    type V = RunDirView;

    open spec fn view(&self) -> RunDirView {
        RunDirView { name: self.name@, files: views(self.files@) }
    }
}

/// Every run number found under `root`/IPTS-*/nexus, mapped to its file.
#[derive(Debug)]
pub struct RunIndex {
    pub root: FilePath,
    /// The runs in increasing order, each once, with their files.
    pub runs: Vec<(u64, FilePath)>,
}

/// The file of a run in a list of runs.
pub open spec fn lists_run(runs: Seq<(u64, FilePath)>, n: u64) -> bool {
    exists|i: int| 0 <= i < runs.len() && (#[trigger] runs[i]).0 == n
}

/// A list of runs as a map.
pub open spec fn runs_map(runs: Seq<(u64, FilePath)>) -> Map<u64, Seq<char>> {
    Map::new(
        |n: u64| lists_run(runs, n),
        |n: u64| runs[choose|i: int| 0 <= i < runs.len() && (#[trigger] runs[i]).0 == n].1@,
    )
}

/// Whether a list of runs is in increasing order.
pub open spec fn runs_increase(runs: Seq<(u64, FilePath)>) -> bool {
    forall|i: int, j: int| 0 <= i < j < runs.len() ==> (#[trigger] runs[i]).0 < (#[trigger] runs[j]).0
}

impl RunIndex {
    /// The runs are listed in increasing order, each once.
    pub open spec fn wf(&self) -> bool {
        runs_increase(self.runs@)
    }

    /// The file of each run.
    pub open spec fn by_run(&self) -> Map<u64, Seq<char>> {
        runs_map(self.runs@)
    }
}

/// In a list of runs in increasing order, the map gives the file listed beside the run.
proof fn runs_map_at(runs: Seq<(u64, FilePath)>, i: int)
    requires
        runs_increase(runs),
        0 <= i < runs.len(),
    ensures
        runs_map(runs).dom().contains(runs[i].0),
        runs_map(runs)[runs[i].0] == runs[i].1@,
{
    let n = runs[i].0;
    assert(lists_run(runs, n));
    let j = choose|j: int| 0 <= j < runs.len() && (#[trigger] runs[j]).0 == n;
    assert(j == i) by {
        if i < j {
            assert(runs[i].0 < runs[j].0);
        } else if j < i {
            assert(runs[j].0 < runs[i].0);
        }
    }
}

/// The index with the files of one `nexus` directory added; a later file of a run takes the
/// place of an earlier one.
pub open spec fn with_files(
    index: Map<u64, Seq<char>>,
    dir: Seq<char>,
    files: Seq<Seq<char>>,
) -> Map<u64, Seq<char>>
    decreases files.len(),
{
    if files.len() == 0 {
        index
    } else {
        let before = with_files(index, dir, files.drop_last());
        match run_of_name(files.last()) {
            Some(n) => before.insert(n, entry_of(dir, files.last())),
            None => before,
        }
    }
}

/// The `nexus` directory of a directory of the instrument.
pub open spec fn nexus_dir(root: Seq<char>, name: Seq<char>) -> Seq<char> {
    entry_of(entry_of(root, name), "nexus"@)
}

/// The files of all experiments of an instrument, by run.
pub open spec fn indexed(root: Seq<char>, dirs: Seq<RunDirView>) -> Map<u64, Seq<char>>
    decreases dirs.len(),
{
    if dirs.len() == 0 {
        Map::empty()
    } else {
        let before = indexed(root, dirs.drop_last());
        if is_experiment_name(dirs.last().name) {
            with_files(before, nexus_dir(root, dirs.last().name), dirs.last().files)
        } else {
            before
        }
    }
}

/// Whether file `f` of directory `d` is the file of run `n` in an experiment.
pub open spec fn holds_run(dirs: Seq<RunDirView>, d: int, f: int, n: u64) -> bool {
    &&& 0 <= d < dirs.len()
    &&& 0 <= f < dirs[d].files.len()
    &&& is_experiment_name(dirs[d].name)
    &&& run_of_name(dirs[d].files[f]) == Some(n)
}

proof fn with_files_locates(
    index: Map<u64, Seq<char>>,
    dir: Seq<char>,
    files: Seq<Seq<char>>,
    n: u64,
)
    ensures
        ({
            let m = with_files(index, dir, files);
            if exists|f: int| 0 <= f < files.len() && run_of_name(#[trigger] files[f]) == Some(n) {
                m.dom().contains(n) && exists|f: int|
                    0 <= f < files.len() && run_of_name(#[trigger] files[f]) == Some(n) && m[n]
                        == entry_of(dir, files[f])
            } else {
                m.dom().contains(n) == index.dom().contains(n) && m[n] == index[n]
            }
        }),
    decreases files.len(),
{
    if files.len() > 0 {
        let init = files.drop_last();
        with_files_locates(index, dir, init, n);
        let m = with_files(index, dir, files);
        if run_of_name(files.last()) == Some(n) {
            assert(run_of_name(files[files.len() - 1]) == Some(n));
            assert(m[n] == entry_of(dir, files[files.len() - 1]));
        } else {
            if exists|f: int| 0 <= f < files.len() && run_of_name(#[trigger] files[f]) == Some(n) {
                let f = choose|f: int|
                    0 <= f < files.len() && run_of_name(#[trigger] files[f]) == Some(n);
                assert(init[f] == files[f]);
                let g = choose|f: int|
                    0 <= f < init.len() && run_of_name(#[trigger] init[f]) == Some(n) && m[n]
                        == entry_of(dir, init[f]);
                assert(files[g] == init[g]);
            } else {
                assert forall|f: int| 0 <= f < init.len() implies run_of_name(#[trigger] init[f])
                    != Some(n) by {
                    assert(init[f] == files[f]);
                }
            }
        }
    }
}

/// The index has a run exactly where an experiment holds a file of it, and then gives such a
/// file.
pub proof fn index_locates_runs(root: Seq<char>, dirs: Seq<RunDirView>, n: u64)
    ensures
        indexed(root, dirs).dom().contains(n) == (exists|d: int, f: int|
            holds_run(dirs, d, f, n)),
        indexed(root, dirs).dom().contains(n) ==> exists|d: int, f: int|
            holds_run(dirs, d, f, n) && indexed(root, dirs)[n] == entry_of(
                nexus_dir(root, dirs[d].name),
                dirs[d].files[f],
            ),
    decreases dirs.len(),
{
    if dirs.len() > 0 {
        let init = dirs.drop_last();
        let last = dirs.last();
        let k = dirs.len() - 1;
        let m = indexed(root, dirs);
        index_locates_runs(root, init, n);
        let before = indexed(root, init);
        let dir = nexus_dir(root, last.name);
        if is_experiment_name(last.name) {
            with_files_locates(before, dir, last.files, n);
        }
        if is_experiment_name(last.name) && exists|f: int|
            0 <= f < last.files.len() && run_of_name(#[trigger] last.files[f]) == Some(n) {
            let f = choose|f: int|
                0 <= f < last.files.len() && run_of_name(#[trigger] last.files[f]) == Some(n)
                    && m[n] == entry_of(dir, last.files[f]);
            assert(holds_run(dirs, k, f, n));
        } else {
            if before.dom().contains(n) {
                let (d, f) = choose|d: int, f: int|
                    holds_run(init, d, f, n) && before[n] == entry_of(
                        nexus_dir(root, init[d].name),
                        init[d].files[f],
                    );
                assert(init[d] == dirs[d]);
                assert(holds_run(dirs, d, f, n));
            }
            if exists|d: int, f: int| holds_run(dirs, d, f, n) {
                let (d, f) = choose|d: int, f: int| holds_run(dirs, d, f, n);
                if d == k {
                    assert(run_of_name(last.files[f]) == Some(n));
                    assert(false);
                }
                assert(init[d] == dirs[d]);
                assert(holds_run(init, d, f, n));
            }
        }
    }
}

impl RunIndex {
    /// Adds the file of a run, in place of an earlier one.
    pub fn insert(&mut self, n: u64, path: FilePath)
        requires
            old(self).wf(),
        ensures
            final(self).wf(),
            final(self).root == old(self).root,
            final(self).by_run() == old(self).by_run().insert(n, path@),
    {
        let ghost before = self.runs@;
        let mut lo: usize = 0;
        let mut hi: usize = self.runs.len();
        while lo < hi
            invariant
                self.runs@ == before,
                runs_increase(before),
                lo <= hi <= before.len(),
                forall|j: int| 0 <= j < lo ==> (#[trigger] before[j]).0 < n,
                forall|j: int| hi <= j < before.len() ==> (#[trigger] before[j]).0 >= n,
                *self == *old(self),
            decreases hi - lo,
        {
            let mid: usize = lo + (hi - lo) / 2;
            if self.runs[mid].0 < n {
                lo = mid + 1;
            } else {
                hi = mid;
            }
        }
        if lo < self.runs.len() && self.runs[lo].0 == n {
            self.runs[lo] = (n, path);
            assert(self.runs@ == before.update(lo as int, (n, path)));
        } else {
            self.runs.insert(lo, (n, path));
            assert(self.runs@ == before.insert(lo as int, (n, path)));
        }
        proof {
            let after = self.runs@;
            let grown = after.len() == before.len() + 1;
            assert(runs_increase(after)) by {
                assert forall|i: int, j: int| 0 <= i < j < after.len() implies (
                #[trigger] after[i]).0 < (#[trigger] after[j]).0 by {
                    let oi = if grown && i > lo { i - 1 } else { i };
                    let oj = if grown && j > lo { j - 1 } else { j };
                    if i == lo {
                        assert(after[j] == before[oj]);
                        if grown {
                            assert(before[oj].0 >= n);
                        } else {
                            assert(before[lo as int].0 < before[oj].0);
                        }
                    } else if j == lo {
                        assert(after[i] == before[oi]);
                    } else {
                        assert(after[i] == before[oi] && after[j] == before[oj]);
                    }
                }
            }
            let was = runs_map(before);
            let now = runs_map(after);
            assert forall|m: u64| #[trigger] now.dom().contains(m) == was.insert(
                n,
                path@,
            ).dom().contains(m) && (now.dom().contains(m) ==> now[m] == was.insert(n, path@)[m]) by {
                assert(after[lo as int].0 == n);
                runs_map_at(after, lo as int);
                if lists_run(before, m) && m != n {
                    let i = choose|i: int| 0 <= i < before.len() && (#[trigger] before[i]).0 == m;
                    let k = if grown && i >= lo { i + 1 } else { i };
                    assert(after[k] == before[i]);
                    runs_map_at(after, k);
                    runs_map_at(before, i);
                }
                if lists_run(after, m) && m != n {
                    let k = choose|k: int| 0 <= k < after.len() && (#[trigger] after[k]).0 == m;
                    let i = if grown && k > lo { k - 1 } else { k };
                    assert(after[k] == before[i]);
                    assert(lists_run(before, m));
                }
            }
            assert(now =~= was.insert(n, path@));
        }
    }

    /// The file of a run.
    pub fn get(&self, n: u64) -> (r: Option<FilePath>)
        requires
            self.wf(),
        ensures
            match r {
                Some(p) => self.by_run().dom().contains(n) && p@ == self.by_run()[n],
                None => !self.by_run().dom().contains(n),
            },
    {
        let mut i: usize = 0;
        while i < self.runs.len()
            invariant
                self.wf(),
                i <= self.runs.len(),
                forall|j: int| 0 <= j < i ==> (#[trigger] self.runs@[j]).0 != n,
            decreases self.runs.len() - i,
        {
            if self.runs[i].0 == n {
                proof {
                    runs_map_at(self.runs@, i as int);
                }
                return Some(self.runs[i].1.clone());
            }
            i = i + 1;
        }
        None
    }

    /// The files of the runs asked for that the index has, by run number.
    pub fn find(&self, ranges: &[(u64, u64)]) -> (r: Vec<FilePath>)
        requires
            self.wf(),
        ensures
            lists_asked_runs(self.by_run(), ranges@, views(r@)),
    {
        let mut r: Vec<FilePath> = Vec::new();
        let ghost mut found: Seq<u64> = Seq::empty();
        let mut i: usize = 0;
        while i < self.runs.len()
            invariant
                self.wf(),
                i <= self.runs.len(),
                found.len() == r.len(),
                forall|k: int|
                    0 <= k < found.len() ==> self.by_run().dom().contains(#[trigger] found[k])
                        && asks_for(ranges@, found[k] as int) && r@[k]@ == self.by_run()[found[k]],
                forall|k: int, l: int| 0 <= k < l < found.len() ==> found[k] < found[l],
                forall|k: int| 0 <= k < found.len() && i < self.runs.len() ==> found[k]
                    < self.runs@[i as int].0,
                forall|j: int|
                    0 <= j < i && asks_for(ranges@, self.runs@[j].0 as int) ==> found.contains(
                        (#[trigger] self.runs@[j]).0,
                    ),
            decreases self.runs.len() - i,
        {
            let n = self.runs[i].0;
            let ghost before = found;
            let ghost r_before = r@;
            assert(i + 1 < self.runs.len() ==> self.runs@[i as int].0 < self.runs@[i + 1].0);
            if is_asked_for(ranges, n) {
                proof {
                    runs_map_at(self.runs@, i as int);
                    found = before.push(n);
                    assert(found[before.len() as int] == n);
                }
                r.push(self.runs[i].1.clone());
                assert forall|j: int|
                    0 <= j < i + 1 && asks_for(
                        ranges@,
                        self.runs@[j].0 as int,
                    ) implies found.contains((#[trigger] self.runs@[j]).0) by {
                    if j < i {
                        let k = choose|k: int|
                            0 <= k < before.len() && before[k] == self.runs@[j].0;
                        assert(found[k] == before[k]);
                    }
                }
                assert forall|k: int| 0 <= k < found.len() implies self.by_run().dom().contains(
                    #[trigger] found[k],
                ) && asks_for(ranges@, found[k] as int) && r@[k]@ == self.by_run()[found[k]] by {
                    if k < before.len() {
                        assert(found[k] == before[k]);
                        assert(r@[k] == r_before[k]);
                    }
                }
            }
            i = i + 1;
        }
        proof {
            assert forall|n: u64|
                self.by_run().dom().contains(n) && asks_for(
                    ranges@,
                    n as int,
                ) implies #[trigger] found.contains(n) by {
                let j = choose|j: int|
                    0 <= j < self.runs@.len() && (#[trigger] self.runs@[j]).0 == n;
                assert(found.contains(self.runs@[j].0));
            }
            assert forall|n: u64| #[trigger] found.contains(n) implies self.by_run().dom().contains(
                n,
            ) && asks_for(ranges@, n as int) by {
                let k = choose|k: int| 0 <= k < found.len() && found[k] == n;
                assert(self.by_run().dom().contains(found[k]));
            }
            assert(are_asked_runs(self.by_run(), ranges@, views(r@), found));
        }
        r
    }
}

/// Whether `runs` are the runs of the index that are asked for, in increasing order, and `files`
/// are their files.
pub open spec fn are_asked_runs(
    index: Map<u64, Seq<char>>,
    ranges: Seq<(u64, u64)>,
    files: Seq<Seq<char>>,
    runs: Seq<u64>,
) -> bool {
    &&& forall|k: int, l: int| 0 <= k < l < runs.len() ==> runs[k] < runs[l]
    &&& forall|n: u64| #[trigger]
        runs.contains(n) <==> index.dom().contains(n) && asks_for(ranges, n as int)
    &&& files.len() == runs.len()
    &&& forall|k: int| 0 <= k < runs.len() ==> #[trigger] files[k] == index[runs[k]]
}

/// Whether `files` are the files of exactly the runs of the index that are asked for, by run
/// number.
pub open spec fn lists_asked_runs(
    index: Map<u64, Seq<char>>,
    ranges: Seq<(u64, u64)>,
    files: Seq<Seq<char>>,
) -> bool {
    exists|runs: Seq<u64>| are_asked_runs(index, ranges, files, runs)
}

/// Whether `file` is the file that the index has for run `n`, which is asked for.
pub open spec fn is_located(
    index: Map<u64, Seq<char>>,
    ranges: Seq<(u64, u64)>,
    n: u64,
    file: Seq<char>,
) -> bool {
    index.dom().contains(n) && asks_for(ranges, n as int) && index[n] == file
}

/// The files listed are those of the runs that are asked for and that the index has, and no
/// others.
pub proof fn located_runs_are_listed(
    index: Map<u64, Seq<char>>,
    ranges: Seq<(u64, u64)>,
    files: Seq<Seq<char>>,
    file: Seq<char>,
)
    requires
        lists_asked_runs(index, ranges, files),
    ensures
        files.contains(file) <==> exists|n: u64| is_located(index, ranges, n, file),
{
    let runs = choose|runs: Seq<u64>| are_asked_runs(index, ranges, files, runs);
    if exists|n: u64| is_located(index, ranges, n, file) {
        let n = choose|n: u64| is_located(index, ranges, n, file);
        assert(runs.contains(n));
        let k = choose|k: int| 0 <= k < runs.len() && runs[k] == n;
        assert(files[k] == file);
    }
    if files.contains(file) {
        let k = choose|k: int| 0 <= k < files.len() && files[k] == file;
        assert(runs.contains(runs[k]));
        assert(is_located(index, ranges, runs[k], file));
    }
}

/// Index every run found under `root`/IPTS-*/nexus. A run lives in exactly one IPTS, so a flat
/// map from run to file is enough to locate it.
pub fn build_run_index(root: &FilePath, dirs: &Vec<RunDir>) -> (r: RunIndex)
    ensures
        r.wf(),
        r.root@ == root@,
        r.by_run() == indexed(root@, views(dirs@)),
{
    let ghost all = views(dirs@);
    let mut r = RunIndex { root: root.clone(), runs: Vec::new() };
    assert(r.by_run() =~= Map::<u64, Seq<char>>::empty());
    let mut d: usize = 0;
    while d < dirs.len()
        invariant
            all == views(dirs@),
            d <= dirs.len(),
            r.wf(),
            r.root@ == root@,
            r.by_run() == indexed(root@, all.take(d as int)),
        decreases dirs.len() - d,
    {
        assert(all.take(d + 1).drop_last() =~= all.take(d as int));
        assert(all.take(d + 1).last() == dirs@[d as int]@);
        if experiment_name(dirs[d].name.as_str()) {
            let dir = root.entry(dirs[d].name.as_str()).entry("nexus");
            let files = &dirs[d].files;
            let ghost names = views(files@);
            let ghost before = r.by_run();
            let mut f: usize = 0;
            assert(names.take(0) =~= Seq::empty());
            while f < files.len()
                invariant
                    names == views(files@),
                    f <= files.len(),
                    r.wf(),
                    r.root@ == root@,
                    r.by_run() == with_files(before, dir@, names.take(f as int)),
                decreases files.len() - f,
            {
                assert(names.take(f + 1).drop_last() =~= names.take(f as int));
                assert(names.take(f + 1).last() == files@[f as int]@);
                if let Some(n) = run_of_file(files[f].as_str()) {
                    let path = dir.entry(files[f].as_str());
                    r.insert(n, path);
                }
                f = f + 1;
            }
            assert(names.take(f as int) =~= names);
        }
        d = d + 1;
    }
    assert(all.take(d as int) =~= all);
    r
}

// ---------------------------------------------------------------------------------------------
// The note beside the located files
// ---------------------------------------------------------------------------------------------

/// The experiment directory of a file in a `nexus` directory: two directories up.
pub open spec fn experiment_of(p: Seq<char>) -> Option<Seq<char>> {
    match parent_of(p) {
        Some(d) => parent_of(d),
        None => None,
    }
}

/// The experiment directories that the files come from; two spellings of one are one.
pub open spec fn experiments_of(files: Seq<Seq<char>>) -> Set<Seq<PartView>>
    decreases files.len(),
{
    if files.len() == 0 {
        Set::empty()
    } else {
        let before = experiments_of(files.drop_last());
        match experiment_of(files.last()) {
            Some(d) => before.insert(path_parts(d)),
            None => before,
        }
    }
}

/// Where located files come from, and how many of the runs asked for were not found.
pub open spec fn match_note(experiments: nat, asked: nat, found: nat) -> Seq<char> {
    let head = "(from "@ + decimal(experiments) + " IPTS"@;
    if asked > found {
        head + ("; "@ + decimal((asked - found) as nat) + " of the "@ + decimal(asked)
            + " runs not found"@) + ")"@
    } else {
        head + ")"@
    }
}

/// "from 3 IPTS" plus how many requested runs have no file, for the located-anywhere mode of the
/// runs popup. Ranges that ask for every run there is are left out: their number has no
/// sixty-four bit form.
pub fn auto_match_note(matches: &[FilePath], ranges: &[(u64, u64)]) -> (note: String)
    requires
        asked_runs(ranges@).len() <= u64::MAX,
    ensures
        note@ == match_note(
            experiments_of(views(matches@)).len(),
            asked_runs(ranges@).len(),
            matches@.len(),
        ),
{
    let ghost all = views(matches@);
    let mut seen: Vec<FilePath> = Vec::new();
    let mut i: usize = 0;
    while i < matches.len()
        invariant
            all == views(matches@),
            i <= matches.len(),
            seen.len() <= i,
            experiments_of(all.take(i as int)).finite(),
            experiments_of(all.take(i as int)).len() == seen.len(),
            forall|d: Seq<PartView>|
                experiments_of(all.take(i as int)).contains(d) <==> #[trigger] all_parts(
                    seen@,
                ).contains(d),
        decreases matches.len() - i,
    {
        assert(all.take(i + 1).drop_last() =~= all.take(i as int));
        assert(all.take(i + 1).last() == matches@[i as int]@);
        let ghost before = experiments_of(all.take(i as int));
        if let Some(nexus) = matches[i].parent() {
            if let Some(home) = nexus.parent() {
                if !has_path(&seen, &home) {
                    let ghost old_seen = all_parts(seen@);
                    let ghost d0 = path_parts(home@);
                    seen.push(home);
                    proof {
                        assert(!before.contains(d0));
                        assert(all_parts(seen@) =~= old_seen.push(d0));
                        assert forall|d: Seq<PartView>|
                            before.insert(d0).contains(d) <==> #[trigger] all_parts(
                                seen@,
                            ).contains(d) by {
                            if before.contains(d) {
                                assert(old_seen.contains(d));
                                let k = choose|k: int|
                                    0 <= k < old_seen.len() && old_seen[k] == d;
                                assert(all_parts(seen@)[k] == d);
                            }
                            if d == d0 {
                                assert(all_parts(seen@)[old_seen.len() as int] == d0);
                            }
                            if all_parts(seen@).contains(d) && d != d0 {
                                let k = choose|k: int|
                                    0 <= k < all_parts(seen@).len() && all_parts(seen@)[k] == d;
                                assert(old_seen[k] == d);
                                assert(old_seen.contains(d));
                            }
                        }
                    }
                } else {
                    assert(before.contains(path_parts(home@)));
                    assert(before.insert(path_parts(home@)) =~= before);
                }
            }
        }
        i = i + 1;
    }
    assert(all.take(i as int) =~= all);
    let requested: u64 = merged_run_count(ranges);
    let mut note = String::new();
    note.append("(from ");
    note.append(to_decimal(seen.len() as u64).as_str());
    note.append(" IPTS");
    let found: u64 = matches.len() as u64;
    if requested > found {
        note.append("; ");
        note.append(to_decimal(requested - found).as_str());
        note.append(" of the ");
        note.append(to_decimal(requested).as_str());
        note.append(" runs not found");
    }
    note.append(")");
    proof {
        let want = match_note(
            experiments_of(all).len(),
            asked_runs(ranges@).len(),
            matches@.len(),
        );
        assert(note@ =~= want);
    }
    note
}

/// The parts of each path.
spec fn all_parts(paths: Seq<FilePath>) -> Seq<Seq<PartView>> {
    Seq::new(paths.len(), |i: int| path_parts(paths[i]@))
}

/// Whether a path is among others.
fn has_path(paths: &Vec<FilePath>, p: &FilePath) -> (r: bool)
    ensures
        r == all_parts(paths@).contains(path_parts(p@)),
{
    let mut i: usize = 0;
    while i < paths.len()
        invariant
            i <= paths.len(),
            forall|k: int| 0 <= k < i ==> path_parts((#[trigger] paths@[k])@) != path_parts(p@),
        decreases paths.len() - i,
    {
        if paths[i].same_as(p) {
            assert(all_parts(paths@)[i as int] == path_parts(p@));
            return true;
        }
        i = i + 1;
    }
    assert(!all_parts(paths@).contains(path_parts(p@))) by {
        if all_parts(paths@).contains(path_parts(p@)) {
            let k = choose|k: int| 0 <= k < all_parts(paths@).len() && all_parts(paths@)[k] == path_parts(p@);
            assert(path_parts(paths@[k]@) == path_parts(p@));
        }
    }
    false
}

// ---------------------------------------------------------------------------------------------
// Laws
// ---------------------------------------------------------------------------------------------

/// The run of a NeXus file is the number that its name ends with before any of the extensions.
pub proof fn runs_stand_before_extensions(stem: Seq<char>)
    ensures
        run_of_name(stem + ".nxs.h5"@) == trailing_number_of(stem),
        run_of_name(stem + ".nxs"@) == trailing_number_of(stem),
        run_of_name(stem + ".hdf5"@) == trailing_number_of(stem),
        run_of_name(stem + ".nx5"@) == trailing_number_of(stem),
        !ends_with(stem, ".nxs"@) ==> run_of_name(stem + ".h5"@) == trailing_number_of(stem),
{
    reveal_strlit(".nxs.h5");
    reveal_strlit(".nxs");
    reveal_strlit(".h5");
    reveal_strlit(".hdf5");
    reveal_strlit(".nx5");
    let (a, b, c, d, e) = (".nxs.h5"@, ".nxs"@, ".h5"@, ".hdf5"@, ".nx5"@);
    extension_is_cut(stem, a);
    extension_is_cut(stem, b);
    extension_is_cut(stem, c);
    extension_is_cut(stem, d);
    extension_is_cut(stem, e);
    stem_of_unfolded(stem + a);
    stem_of_unfolded(stem + b);
    stem_of_unfolded(stem + c);
    stem_of_unfolded(stem + d);
    stem_of_unfolded(stem + e);
    last_chars_differ(stem + b, a, 1);
    last_chars_differ(stem + d, a, 2);
    last_chars_differ(stem + d, b, 1);
    last_chars_differ(stem + d, c, 2);
    last_chars_differ(stem + e, a, 2);
    last_chars_differ(stem + e, b, 1);
    last_chars_differ(stem + e, c, 2);
    last_chars_differ(stem + e, d, 2);
    last_chars_differ(stem + c, b, 1);
    if ends_with(stem + c, a) {
        let s = stem + c;
        assert(b + c =~= a);
        assert(stem.subrange(stem.len() - 4, stem.len() as int) =~= b) by {
            assert forall|k: int| 0 <= k < 4 implies stem.subrange(
                stem.len() - 4,
                stem.len() as int,
            )[k] == b[k] by {
                suffix_char(s, a, 7 - k);
                assert(s[s.len() - (7 - k)] == stem[stem.len() - 4 + k]);
            }
        }
        assert(ends_with(stem, b));
    }
}

/// A name made of a stem and an extension ends with the extension, and is the stem without it.
proof fn extension_is_cut(stem: Seq<char>, ext: Seq<char>)
    ensures
        ends_with(stem + ext, ext),
        (stem + ext).take((stem + ext).len() - ext.len()) == stem,
{
    let s = stem + ext;
    assert(s.subrange(s.len() - ext.len(), s.len() as int) =~= ext);
    assert(s.take(s.len() - ext.len()) =~= stem);
}

/// A text whose character at `back` from its end is not that of `part` does not end with it.
proof fn last_chars_differ(s: Seq<char>, part: Seq<char>, back: int)
    requires
        0 < back <= part.len(),
        back <= s.len(),
    ensures
        s[s.len() - back] != part[part.len() - back] ==> !ends_with(s, part),
{
    if ends_with(s, part) {
        suffix_char(s, part, back);
    }
}

/// A name with none of the extensions belongs to no run.
pub proof fn other_names_have_no_run(name: Seq<char>)
    requires
        !ends_with(name, ".nxs.h5"@),
        !ends_with(name, ".nxs"@),
        !ends_with(name, ".h5"@),
        !ends_with(name, ".hdf5"@),
        !ends_with(name, ".nx5"@),
    ensures
        run_of_name(name) is None,
{
    stem_of_unfolded(name);
}

/// The positions of the files of a directory whose run is asked for.
spec fn hit_positions(names: Seq<Seq<char>>, ranges: Seq<(u64, u64)>) -> Seq<int>
    decreases names.len(),
{
    if names.len() == 0 {
        Seq::empty()
    } else {
        let before = hit_positions(names.drop_last(), ranges);
        match run_of_name(names.last()) {
            Some(n) => if asks_for(ranges, n as int) {
                before.push(names.len() - 1)
            } else {
                before
            },
            None => before,
        }
    }
}

proof fn hits_have_positions(dir: Seq<char>, names: Seq<Seq<char>>, ranges: Seq<(u64, u64)>)
    ensures
        ({
            let at = hit_positions(names, ranges);
            let hits = run_hits(dir, names, ranges);
            &&& at.len() == hits.len()
            &&& at.len() <= names.len()
            &&& forall|h: int|
                0 <= h < at.len() ==> 0 <= #[trigger] at[h] < names.len() && run_of_name(names[at[h]])
                    == Some(hits[h].0) && asks_for(ranges, hits[h].0 as int) && hits[h].1
                    == entry_of(dir, names[at[h]])
            &&& forall|h: int, g: int| 0 <= h < g < at.len() ==> at[h] < at[g]
            &&& forall|i: int|
                0 <= i < names.len() && (run_of_name(#[trigger] names[i]) matches Some(n) && asks_for(
                    ranges,
                    n as int,
                )) ==> at.contains(i)
        }),
    decreases names.len(),
{
    if names.len() > 0 {
        let init = names.drop_last();
        hits_have_positions(dir, init, ranges);
        let before = hit_positions(init, ranges);
        let at = hit_positions(names, ranges);
        let hits = run_hits(dir, names, ranges);
        assert forall|h: int| 0 <= h < at.len() implies 0 <= #[trigger] at[h] < names.len()
            && run_of_name(names[at[h]]) == Some(hits[h].0) && asks_for(ranges, hits[h].0 as int)
            && hits[h].1 == entry_of(dir, names[at[h]]) by {
            if h < before.len() {
                assert(at[h] == before[h]);
                assert(init[before[h]] == names[before[h]]);
                assert(run_hits(dir, init, ranges)[h] == hits[h]);
            }
        }
        assert forall|h: int, g: int| 0 <= h < g < at.len() implies at[h] < at[g] by {
            assert(at[h] == before[h]);
            if g < before.len() {
                assert(at[g] == before[g]);
            } else {
                assert(before[h] < init.len());
            }
        }
        assert forall|i: int|
            0 <= i < names.len() && (run_of_name(#[trigger] names[i]) matches Some(n) && asks_for(
                ranges,
                n as int,
            )) implies at.contains(i) by {
            if i < init.len() {
                assert(init[i] == names[i]);
                assert(before.contains(i));
                let h = choose|h: int| 0 <= h < before.len() && before[h] == i;
                assert(at[h] == i);
            } else {
                assert(at[before.len() as int] == i);
            }
        }
    }
}

/// The files found in a directory are its entries whose run lies in one of the ranges, each once
/// and none left out, by run number, and by path where the runs are the same.
pub proof fn found_files_are_in_run_order(
    dir: Seq<char>,
    names: Seq<Seq<char>>,
    ranges: Seq<(u64, u64)>,
) -> (at: Seq<int>)
    requires
        names.len() <= usize::MAX,
    ensures
        ({
            let files = files_by_run(run_hits(dir, names, ranges));
            &&& files.len() == at.len()
            &&& forall|k: int|
                0 <= k < at.len() ==> {
                    &&& 0 <= #[trigger] at[k] < names.len()
                    &&& files[k] == entry_of(dir, names[at[k]])
                    &&& run_of_name(names[at[k]]) matches Some(n) && exists|r: int|
                        0 <= r < ranges.len() && #[trigger] ranges[r].0 <= n <= ranges[r].1
                }
            &&& forall|k: int, l: int|
                0 <= k < l < at.len() ==> {
                    &&& #[trigger] at[k] != #[trigger] at[l]
                    &&& run_of_name(names[at[k]])->0 <= run_of_name(names[at[l]])->0
                    &&& run_of_name(names[at[k]]) == run_of_name(names[at[l]]) ==> path_at_most(
                        path_parts(files[k]),
                        path_parts(files[l]),
                    )
                }
            &&& forall|i: int, r: int|
                0 <= i < names.len() && 0 <= r < ranges.len() && (run_of_name(
                    #[trigger] names[i],
                ) matches Some(n) && #[trigger] ranges[r].0 <= n <= ranges[r].1) ==> at.contains(i)
        }),
{
    let hits = run_hits(dir, names, ranges);
    let pos = hit_positions(names, ranges);
    let files = files_by_run(hits);
    hits_have_positions(dir, names, ranges);
    let order = stable_order_of::<(u64, FilePath)>(hits);
    stable_order_exists::<(u64, FilePath)>(hits);
    let at = Seq::new(hits.len(), |k: int| pos[order[k] as int]);
    assert forall|k: int| 0 <= k < at.len() implies {
        &&& 0 <= #[trigger] at[k] < names.len()
        &&& files[k] == entry_of(dir, names[at[k]])
        &&& run_of_name(names[at[k]]) matches Some(n) && exists|r: int|
            0 <= r < ranges.len() && #[trigger] ranges[r].0 <= n <= ranges[r].1
    } by {
        let h = order[k] as int;
        assert(0 <= h < pos.len());
        assert(at[k] == pos[h]);
        assert(asks_for(ranges, hits[h].0 as int));
    }
    assert forall|k: int, l: int| 0 <= k < l < at.len() implies {
        &&& #[trigger] at[k] != #[trigger] at[l]
        &&& run_of_name(names[at[k]])->0 <= run_of_name(names[at[l]])->0
        &&& run_of_name(names[at[k]]) == run_of_name(names[at[l]]) ==> path_at_most(
            path_parts(files[k]),
            path_parts(files[l]),
        )
    } by {
        let (g, h) = (order[k] as int, order[l] as int);
        assert(comes_before::<(u64, FilePath)>(hits, g, h));
        assert(at[k] == pos[g] && at[l] == pos[h]);
        assert(g != h);
        if g < h {
            assert(pos[g] < pos[h]);
        } else {
            assert(pos[h] < pos[g]);
        }
        assert(FilePath::at_most(hits[g].1, hits[h].1) == path_at_most(
            path_parts(hits[g].1),
            path_parts(hits[h].1),
        ));
    }
    assert forall|i: int, r: int|
        0 <= i < names.len() && 0 <= r < ranges.len() && (run_of_name(
            #[trigger] names[i],
        ) matches Some(n) && #[trigger] ranges[r].0 <= n <= ranges[r].1) implies at.contains(i) by {
        let n = run_of_name(names[i])->0;
        assert(asks_for(ranges, n as int));
        assert(pos.contains(i));
        let h = choose|h: int| 0 <= h < pos.len() && pos[h] == i;
        stable_order_is_onto::<(u64, FilePath)>(hits, order, h);
        let k = choose|k: int| 0 <= k < order.len() && #[trigger] order[k] == h;
        assert(at[k] == i);
    }
    at
}

/// A file named by a run that is asked for is found, whatever its name begins with.
pub proof fn files_of_asked_runs_are_found(
    dir: Seq<char>,
    names: Seq<Seq<char>>,
    ranges: Seq<(u64, u64)>,
    prefix: Seq<char>,
    n: u64,
    i: int,
    r: int,
)
    requires
        names.len() <= usize::MAX,
        0 <= i < names.len(),
        0 <= r < ranges.len(),
        prefix.len() == 0 || !('0' <= prefix.last() <= '9'),
        ranges[r].0 <= n <= ranges[r].1,
        names[i] == prefix + decimal(n as nat) + ".nxs.h5"@,
    ensures
        files_by_run(run_hits(dir, names, ranges)).contains(entry_of(dir, names[i])),
{
    let stem = prefix + decimal(n as nat);
    runs_stand_before_extensions(stem);
    trailing_number_reads_back(prefix, n);
    let at = found_files_are_in_run_order(dir, names, ranges);
    let files = files_by_run(run_hits(dir, names, ranges));
    assert(run_of_name(names[i]) == Some(n));
    assert(ranges[r].0 <= n <= ranges[r].1);
    assert(at.contains(i));
    let k = choose|k: int| 0 <= k < at.len() && at[k] == i;
    assert(files[k] == entry_of(dir, names[at[k]]));
}

/// The file that the index has for a run is the last one that an experiment holds of it, in the
/// `nexus` directory of that experiment.
pub proof fn last_file_of_a_run_is_indexed(
    root: Seq<char>,
    dirs: Seq<RunDirView>,
    d: int,
    f: int,
    n: u64,
)
    requires
        0 <= d < dirs.len(),
        0 <= f < dirs[d].files.len(),
        is_experiment_name(dirs[d].name),
        run_of_name(dirs[d].files[f]) == Some(n),
        forall|g: int| f < g < dirs[d].files.len() ==> run_of_name(#[trigger] dirs[d].files[g]) != Some(n),
        forall|e: int, g: int|
            d < e < dirs.len() && is_experiment_name(dirs[e].name) && 0 <= g < dirs[e].files.len()
                ==> run_of_name(#[trigger] dirs[e].files[g]) != Some(n),
    ensures
        indexed(root, dirs).dom().contains(n),
        indexed(root, dirs)[n] == entry_of(
            entry_of(entry_of(root, dirs[d].name), "nexus"@),
            dirs[d].files[f],
        ),
    decreases dirs.len(),
{
    let init = dirs.drop_last();
    let last = dirs.last();
    let k = dirs.len() - 1;
    let before = indexed(root, init);
    let dir = nexus_dir(root, last.name);
    if d == k {
        last_file_is_kept(before, dir, last.files, f, n);
    } else {
        assert(init[d] == dirs[d]);
        assert forall|e: int, g: int|
            d < e < init.len() && is_experiment_name(init[e].name) && 0 <= g
                < init[e].files.len() implies run_of_name(#[trigger] init[e].files[g]) != Some(n) by {
            assert(init[e] == dirs[e]);
            assert(run_of_name(dirs[e].files[g]) != Some(n));
        }
        last_file_of_a_run_is_indexed(root, init, d, f, n);
        if is_experiment_name(last.name) {
            assert forall|g: int| 0 <= g < last.files.len() implies run_of_name(
                #[trigger] last.files[g],
            ) != Some(n) by {
                assert(run_of_name(dirs[k].files[g]) != Some(n));
            }
            with_files_locates(before, dir, last.files, n);
        }
    }
}

proof fn last_file_is_kept(
    index: Map<u64, Seq<char>>,
    dir: Seq<char>,
    files: Seq<Seq<char>>,
    f: int,
    n: u64,
)
    requires
        0 <= f < files.len(),
        run_of_name(files[f]) == Some(n),
        forall|g: int| f < g < files.len() ==> run_of_name(#[trigger] files[g]) != Some(n),
    ensures
        with_files(index, dir, files).dom().contains(n),
        with_files(index, dir, files)[n] == entry_of(dir, files[f]),
    decreases files.len(),
{
    let init = files.drop_last();
    if f < init.len() {
        assert(run_of_name(files[files.len() - 1]) != Some(n));
        assert(init[f] == files[f]);
        assert forall|g: int| f < g < init.len() implies run_of_name(#[trigger] init[g]) != Some(n) by {
            assert(init[g] == files[g]);
        }
        last_file_is_kept(index, dir, init, f, n);
    }
}

/// A run that no experiment holds a file of is not in the index.
pub proof fn other_runs_are_not_indexed(root: Seq<char>, dirs: Seq<RunDirView>, n: u64)
    requires
        forall|d: int, f: int|
            0 <= d < dirs.len() && starts_with(dirs[d].name, "IPTS-"@) && 0 <= f
                < dirs[d].files.len() ==> run_of_name(#[trigger] dirs[d].files[f]) != Some(n),
    ensures
        !indexed(root, dirs).dom().contains(n),
{
    index_locates_runs(root, dirs, n);
    if exists|d: int, f: int| holds_run(dirs, d, f, n) {
        let (d, f) = choose|d: int, f: int| holds_run(dirs, d, f, n);
        assert(run_of_name(dirs[d].files[f]) != Some(n));
    }
}

/// The files listed are those of the runs that the index has and that lie in one of the ranges, in
/// the order of the runs.
pub proof fn asked_runs_are_listed_in_order(
    index: Map<u64, Seq<char>>,
    ranges: Seq<(u64, u64)>,
    files: Seq<Seq<char>>,
) -> (runs: Seq<u64>)
    requires
        lists_asked_runs(index, ranges, files),
    ensures
        runs.len() == files.len(),
        forall|k: int|
            0 <= k < runs.len() ==> {
                &&& index.dom().contains(#[trigger] runs[k])
                &&& files[k] == index[runs[k]]
                &&& exists|r: int|
                    0 <= r < ranges.len() && #[trigger] ranges[r].0 <= runs[k] <= ranges[r].1
            },
        forall|k: int, l: int| 0 <= k < l < runs.len() ==> runs[k] < runs[l],
        forall|n: u64, r: int|
            #[trigger] index.dom().contains(n) && 0 <= r < ranges.len() && #[trigger] ranges[r].0 <= n
                <= ranges[r].1 ==> runs.contains(n),
{
    let runs = choose|runs: Seq<u64>| are_asked_runs(index, ranges, files, runs);
    assert forall|k: int| 0 <= k < runs.len() implies {
        &&& index.dom().contains(#[trigger] runs[k])
        &&& files[k] == index[runs[k]]
        &&& exists|r: int| 0 <= r < ranges.len() && #[trigger] ranges[r].0 <= runs[k] <= ranges[r].1
    } by {
        assert(runs.contains(runs[k]));
        assert(files[k] == index[runs[k]]);
        assert(asks_for(ranges, runs[k] as int));
    }
    assert forall|n: u64, r: int|
        #[trigger] index.dom().contains(n) && 0 <= r < ranges.len() && #[trigger] ranges[r].0 <= n
            <= ranges[r].1 implies runs.contains(n) by {
        assert(asks_for(ranges, n as int));
    }
    runs
}

/// The experiment directories of files are those two directories above them, each counted once.
pub proof fn experiments_are_two_directories_up(files: Seq<Seq<char>>, p: Seq<PartView>)
    ensures
        experiments_of(files).finite(),
        experiments_of(files).contains(p) <==> exists|i: int|
            0 <= i < files.len() && (parent_of(#[trigger] files[i]) matches Some(d) && parent_of(
                d,
            ) matches Some(e) && path_parts(e) == p),
    decreases files.len(),
{
    if files.len() > 0 {
        let init = files.drop_last();
        experiments_are_two_directories_up(init, p);
        let k = files.len() - 1;
        if experiments_of(init).contains(p) {
            let i = choose|i: int|
                0 <= i < init.len() && (parent_of(#[trigger] init[i]) matches Some(d) && parent_of(
                    d,
                ) matches Some(e) && path_parts(e) == p);
            assert(files[i] == init[i]);
        }
        if exists|i: int|
            0 <= i < files.len() && (parent_of(#[trigger] files[i]) matches Some(d) && parent_of(
                d,
            ) matches Some(e) && path_parts(e) == p) {
            let i = choose|i: int|
                0 <= i < files.len() && (parent_of(#[trigger] files[i]) matches Some(d) && parent_of(
                    d,
                ) matches Some(e) && path_parts(e) == p);
            if i < k {
                assert(init[i] == files[i]);
            }
        }
        if experiment_of(files.last()) is Some {
            assert(files[k] == files.last());
        }
    }
}

/// The note says how many experiments the files come from, and where fewer files were found than
/// runs asked for, how many are missing.
pub proof fn notes_count_missing_runs(experiments: nat, asked: nat, found: nat)
    ensures
        asked <= found ==> match_note(experiments, asked, found) == "(from "@ + decimal(experiments)
            + " IPTS"@ + ")"@,
        asked > found ==> match_note(experiments, asked, found) == "(from "@ + decimal(experiments)
            + " IPTS"@ + ("; "@ + decimal((asked - found) as nat) + " of the "@ + decimal(asked)
            + " runs not found"@) + ")"@,
{
}

/// A list of runs in increasing order gives for each of them the file beside it, and for no other
/// run any.
pub proof fn lists_of_runs_are_maps(runs: Seq<(u64, FilePath)>, i: int, n: u64)
    requires
        runs_increase(runs),
    ensures
        0 <= i < runs.len() ==> runs_map(runs).dom().contains(runs[i].0) && runs_map(runs)[runs[i].0]
            == runs[i].1@,
        (forall|j: int| 0 <= j < runs.len() ==> (#[trigger] runs[j]).0 != n) ==> !runs_map(
            runs,
        ).dom().contains(n),
{
    if 0 <= i < runs.len() {
        runs_map_at(runs, i);
    }
    if lists_run(runs, n) {
        let j = choose|j: int| 0 <= j < runs.len() && (#[trigger] runs[j]).0 == n;
        assert(runs[j].0 == n);
    }
}

} // verus!
