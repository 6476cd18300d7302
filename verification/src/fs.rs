//! Staging files on the boot partition: a mark-and-sweep registry of the
//! files that lie there, and the steps of a write that cannot be observed
//! half done.
//!
//! Nothing here touches the file system. The caller scans the directory,
//! carries out the steps and deletes what the sweep names. Two runs that
//! work on one directory at the same time are not safe: each sweeps by its
//! own view of what is used.

use vstd::prelude::*;
use crate::path::{parent, parent_of, trim_sep};
use crate::text::{
    back_run_len, chars_of, is_char, not_char, owned, push_text, same_text, skip_char_back,
    string_of_range, texts,
};

verus! {

/// Registry of the files under a directory, each marked as used or not.
///
/// It lives for one run: it is made from a scan of the directory, every file
/// that the run refers to is marked, and at the end [`FileTracker::cleanup`]
/// names the files that nothing referred to.
pub struct FileTracker {
    files: Vec<(String, bool)>,
}

/// Whether `path` is the path of one of `files`.
pub open spec fn holds(files: Seq<(String, bool)>, path: Seq<char>) -> bool {
    exists|i: int| 0 <= i < files.len() && #[trigger] files[i].0@ == path
}

/// Index of `path` in `files`.
pub open spec fn index_of(files: Seq<(String, bool)>, path: Seq<char>) -> int {
    choose|i: int| 0 <= i < files.len() && #[trigger] files[i].0@ == path
}

/// Whether `paths` names `path`.
pub open spec fn listed(paths: Seq<String>, path: Seq<char>) -> bool {
    exists|i: int| 0 <= i < paths.len() && #[trigger] paths[i]@ == path
}

/// The registry of a scan that found `paths`: each of them, not yet used.
pub open spec fn scanned(paths: Seq<String>) -> Map<Seq<char>, bool> {
    Map::new(|p: Seq<char>| listed(paths, p), |p: Seq<char>| false)
}

/// The paths that `files` holds as not used.
pub open spec fn unused(files: Map<Seq<char>, bool>) -> Set<Seq<char>> {
    Set::new(|p: Seq<char>| files.dom().contains(p) && !files[p])
}

impl FileTracker {
    /// The registry's invariant: no path is held twice. Every registry that
    /// [`FileTracker::new`] makes has it, and marking keeps it.
    pub closed spec fn well_formed(&self) -> bool {
        forall|i: int, j: int|
            0 <= i < j < self.files.len() ==> #[trigger] self.files[i].0@ != #[trigger] self.files[j].0@
    }

    /// The registry as a map from each path in it to whether it is used.
    pub closed spec fn view(&self) -> Map<Seq<char>, bool> {
        Map::new(
            |p: Seq<char>| holds(self.files@, p),
            |p: Seq<char>| self.files[index_of(self.files@, p)].1,
        )
    }

    /// Position of `path` among the files held.
    fn position(&self, path: &str) -> (r: Option<usize>)
        ensures
            match r {
                Some(i) => i < self.files.len() && self.files[i as int].0@ == path@,
                None => !holds(self.files@, path@),
            },
    {
        let mut i: usize = 0;
        while i < self.files.len()
            invariant
                i <= self.files.len(),
                forall|k: int| 0 <= k < i ==> #[trigger] self.files[k].0@ != path@,
            decreases self.files.len() - i,
        {
            if same_text(self.files[i].0.as_str(), path) {
                return Some(i);
            }
            i += 1;
        }
        None
    }

    /// The registry of a directory in which a scan found the regular files
    /// `paths`: all of them, none used yet. A directory that does not exist
    /// has no files, and gives an empty registry.
    pub fn new(paths: &Vec<String>) -> (r: Self)
        ensures
            r.well_formed(),
            r@ == scanned(paths@),
    {
        let mut tracker = FileTracker { files: Vec::new() };
        let mut i: usize = 0;
        assert(tracker@ =~= scanned(paths@.subrange(0, 0)));
        while i < paths.len()
            invariant
                i <= paths.len(),
                tracker.well_formed(),
                tracker@ == scanned(paths@.subrange(0, i as int)),
                forall|k: int| 0 <= k < tracker.files.len() ==> !(#[trigger] tracker.files[k]).1,
            decreases paths.len() - i,
        {
            let ghost before = tracker;
            let ghost done = paths@.subrange(0, i as int);
            let ghost next = paths@.subrange(0, i + 1);
            let found = tracker.position(paths[i].as_str());
            if found.is_none() {
                tracker.files.push((owned(paths[i].as_str()), false));
                proof {
                    assert forall|p: Seq<char>| holds(tracker.files@, p) <==> (holds(
                        before.files@,
                        p,
                    ) || p == paths@[i as int]@) by {
                        if holds(before.files@, p) {
                            let k = index_of(before.files@, p);
                            assert(tracker.files@[k].0@ == p);
                        }
                        if p == paths@[i as int]@ {
                            assert(tracker.files@[before.files.len() as int].0@ == p);
                        }
                        if holds(tracker.files@, p) {
                            let k = index_of(tracker.files@, p);
                            if k < before.files.len() {
                                assert(before.files@[k].0@ == p);
                            }
                        }
                    }
                }
            }
            proof {
                assert forall|p: Seq<char>| listed(next, p) <==> (listed(done, p) || p
                    == paths@[i as int]@) by {
                    if listed(done, p) {
                        let k = choose|k: int| 0 <= k < done.len() && #[trigger] done[k]@ == p;
                        assert(next[k]@ == p);
                    }
                    if p == paths@[i as int]@ {
                        assert(next[i as int]@ == p);
                    }
                    if listed(next, p) {
                        let k = choose|k: int| 0 <= k < next.len() && #[trigger] next[k]@ == p;
                        if k < i {
                            assert(done[k]@ == p);
                        }
                    }
                }
                match found {
                    Some(at) => {
                        assert(tracker.files@[at as int].0@ == paths@[i as int]@);
                        assert(holds(tracker.files@, paths@[i as int]@));
                    },
                    None => {},
                }
                assert forall|p: Seq<char>| holds(tracker.files@, p) <==> listed(next, p) by {
                    assert(before@.dom().contains(p) <==> scanned(done).dom().contains(p));
                }
                assert forall|p: Seq<char>| holds(tracker.files@, p) implies !tracker@[p] by {
                    let k = index_of(tracker.files@, p);
                    assert(!tracker.files[k].1);
                }
                assert(tracker@.dom() =~= scanned(next).dom());
                assert(tracker@ =~= scanned(next));
            }
            i += 1;
        }
        assert(paths@.subrange(0, paths.len() as int) == paths@);
        tracker
    }

    /// Marks `path` as used by this run. A path that was not in the registry
    /// yet, a file staged by this run, is added. Marking twice is marking
    /// once.
    pub fn mark_used(&mut self, path: &str)
        requires
            old(self).well_formed(),
        ensures
            final(self).well_formed(),
            final(self)@ == old(self)@.insert(path@, true),
    {
        match self.position(path) {
            Some(i) => {
                let ghost before = self.files@;
                let entry = (owned(path), true);
                self.files[i] = entry;
                proof {
                    assert forall|p: Seq<char>| holds(self.files@, p) <==> holds(before, p) by {
                        if holds(before, p) {
                            let k = index_of(before, p);
                            assert(self.files@[k].0@ == p);
                        }
                        if holds(self.files@, p) {
                            let k = index_of(self.files@, p);
                            assert(before[k].0@ == p);
                        }
                    }
                    assert(holds(before, path@));
                    assert(final(self)@ =~= old(self)@.insert(path@, true));
                }
            },
            None => {
                let ghost before = self.files@;
                self.files.push((owned(path), true));
                proof {
                    assert forall|p: Seq<char>| holds(self.files@, p) <==> (holds(before, p)
                        || p == path@) by {
                        if holds(before, p) {
                            let k = index_of(before, p);
                            assert(self.files@[k].0@ == p);
                        }
                        if p == path@ {
                            assert(self.files@[before.len() as int].0@ == p);
                        }
                        if holds(self.files@, p) {
                            let k = index_of(self.files@, p);
                            if k < before.len() {
                                assert(before[k].0@ == p);
                            }
                        }
                    }
                    assert(final(self)@ =~= old(self)@.insert(path@, true));
                }
            },
        }
    }

    /// The files to delete at the end of a run: every path in the registry
    /// that was not marked, each once. The caller deletes those that still
    /// exist, one after another as [`crate::progress::next_step`] gives
    /// them: a deletion that fails stops the sweep.
    pub fn cleanup(&self) -> (r: Vec<String>)
        requires
            self.well_formed(),
        ensures
            texts(r@).to_set() == unused(self@),
            texts(r@).no_duplicates(),
    {
        let mut out: Vec<String> = Vec::new();
        let mut i: usize = 0;
        let ghost mut origin: Seq<int> = Seq::empty();
        while i < self.files.len()
            invariant
                i <= self.files.len(),
                self.well_formed(),
                origin.len() == out.len(),
                forall|k: int|
                    0 <= k < out.len() ==> 0 <= #[trigger] origin[k] < i && out@[k]@
                        == self.files[origin[k]].0@ && !self.files[origin[k]].1,
                forall|k: int, l: int| 0 <= k < l < out.len() ==> origin[k] < origin[l],
                forall|j: int|
                    0 <= j < i && !(#[trigger] self.files[j]).1 ==> exists|k: int|
                        0 <= k < out.len() && origin[k] == j,
            decreases self.files.len() - i,
        {
            if !self.files[i].1 {
                out.push(owned(self.files[i].0.as_str()));
                proof {
                    let ghost prev = origin;
                    origin = origin.push(i as int);
                    assert forall|j: int| 0 <= j < i + 1 && !(#[trigger] self.files[j]).1 implies exists|
                        k: int,
                    |
                        0 <= k < out.len() && origin[k] == j by {
                        if j < i {
                            let k = choose|k: int| 0 <= k < prev.len() && prev[k] == j;
                            assert(origin[k] == j);
                        } else {
                            assert(origin[out.len() - 1] == j);
                        }
                    }
                }
            }
            i += 1;
        }
        proof {
            let t = texts(out@);
            assert forall|k: int, l: int| 0 <= k < l < t.len() implies t[k] != t[l] by {
                assert(origin[k] < origin[l]);
            }
            assert forall|p: Seq<char>| t.to_set().contains(p) <==> unused(self@).contains(p) by {
                if t.to_set().contains(p) {
                    let k = choose|k: int| 0 <= k < t.len() && t[k] == p;
                    assert(self.files[origin[k]].0@ == p);
                    assert(holds(self.files@, p));
                    assert(index_of(self.files@, p) == origin[k]);
                }
                if unused(self@).contains(p) {
                    let j = index_of(self.files@, p);
                    let k = choose|k: int| 0 <= k < out.len() && origin[k] == j;
                    assert(t[k] == p);
                }
            }
            assert(t.to_set() =~= unused(self@));
        }
        out
    }
}

/// What marking each of `marks` in turn makes of the registry `files`.
pub open spec fn mark_all(files: Map<Seq<char>, bool>, marks: Seq<Seq<char>>) -> Map<
    Seq<char>,
    bool,
>
    decreases marks.len(),
{
    if marks.len() == 0 {
        files
    } else {
        mark_all(files, marks.drop_last()).insert(marks.last(), true)
    }
}

/// The files of `disk` that a sweep by the registry `files` deletes.
pub open spec fn removed(disk: Set<Seq<char>>, files: Map<Seq<char>, bool>) -> Set<Seq<char>> {
    disk.intersect(unused(files))
}

/// The files that a sweep by the registry `files` leaves on `disk`.
pub open spec fn swept(disk: Set<Seq<char>>, files: Map<Seq<char>, bool>) -> Set<Seq<char>> {
    disk.difference(unused(files))
}

/// Marking adds the marked paths as used and changes nothing else.
pub proof fn lemma_mark_all(files: Map<Seq<char>, bool>, marks: Seq<Seq<char>>)
    ensures
        mark_all(files, marks).dom() == files.dom().union(marks.to_set()),
        forall|p: Seq<char>| marks.to_set().contains(p) ==> #[trigger] mark_all(files, marks)[p],
        forall|p: Seq<char>|
            files.dom().contains(p) && !marks.to_set().contains(p) ==> #[trigger] mark_all(
                files,
                marks,
            )[p] == files[p],
    decreases marks.len(),
{
    if marks.len() == 0 {
        assert(mark_all(files, marks).dom() =~= files.dom().union(marks.to_set()));
    } else {
        let m = marks.drop_last();
        lemma_mark_all(files, m);
        assert forall|p: Seq<char>| marks.to_set().contains(p) <==> (m.to_set().contains(p) || p
            == marks.last()) by {
            if m.to_set().contains(p) {
                let k = choose|k: int| 0 <= k < m.len() && m[k] == p;
                assert(marks[k] == p);
            }
            if marks.to_set().contains(p) {
                let k = choose|k: int| 0 <= k < marks.len() && marks[k] == p;
                if k < m.len() {
                    assert(m[k] == p);
                }
            }
            if p == marks.last() {
                assert(marks[marks.len() - 1] == p);
            }
        }
        assert(mark_all(files, marks).dom() =~= files.dom().union(marks.to_set()));
    }
}

/// Of the files that a scan found, a sweep deletes exactly those that were
/// not marked since, and leaves the marked ones.
pub proof fn lemma_cleanup_removes_unmarked(paths: Seq<String>, marks: Seq<Seq<char>>)
    ensures
        ({
            let found = scanned(paths).dom();
            let files = mark_all(scanned(paths), marks);
            &&& unused(files) == found.difference(marks.to_set())
            &&& removed(found, files) == found.difference(marks.to_set())
            &&& swept(found, files) == found.intersect(marks.to_set())
        }),
{
    let found = scanned(paths).dom();
    let files = mark_all(scanned(paths), marks);
    lemma_mark_all(scanned(paths), marks);
    assert forall|p: Seq<char>| unused(files).contains(p) <==> found.difference(
        marks.to_set(),
    ).contains(p) by {
        if found.contains(p) && !marks.to_set().contains(p) {
            assert(files[p] == scanned(paths)[p]);
        }
        if marks.to_set().contains(p) {
            assert(files[p]);
        }
    }
    assert(unused(files) =~= found.difference(marks.to_set()));
    assert(removed(found, files) =~= found.difference(marks.to_set()));
    assert(swept(found, files) =~= found.intersect(marks.to_set()));
}

/// A second sweep right after the first finds nothing to delete, whatever
/// lay on the disk.
pub proof fn lemma_cleanup_twice(disk: Set<Seq<char>>, files: Map<Seq<char>, bool>)
    ensures
        removed(swept(disk, files), files) == Set::<Seq<char>>::empty(),
        swept(swept(disk, files), files) == swept(disk, files),
{
    assert(removed(swept(disk, files), files) =~= Set::<Seq<char>>::empty());
    assert(swept(swept(disk, files), files) =~= swept(disk, files));
}

/// Marking a path a second time changes nothing.
pub proof fn lemma_mark_is_idempotent(files: Map<Seq<char>, bool>, path: Seq<char>)
    ensures
        files.insert(path, true).insert(path, true) == files.insert(path, true),
        mark_all(files, seq![path, path]) == mark_all(files, seq![path]),
{
    assert(files.insert(path, true).insert(path, true) =~= files.insert(path, true));
    assert(seq![path, path].drop_last() =~= seq![path]);
    assert(seq![path].drop_last() =~= Seq::<Seq<char>>::empty());
    assert(mark_all(files, Seq::<Seq<char>>::empty()) == files);
    assert(mark_all(files, seq![path]) == files.insert(path, true));
}

/// Marking `first` and then `second` is marking `first + second`.
pub proof fn lemma_mark_all_concat(
    files: Map<Seq<char>, bool>,
    first: Seq<Seq<char>>,
    second: Seq<Seq<char>>,
)
    ensures
        mark_all(files, first + second) == mark_all(mark_all(files, first), second),
    decreases second.len(),
{
    if second.len() == 0 {
        assert(first + second == first);
    } else {
        assert((first + second).drop_last() == first + second.drop_last());
        assert((first + second).last() == second.last());
        lemma_mark_all_concat(files, first, second.drop_last());
    }
}

/// The path beside `dest` at which a write to `dest` is prepared: `dest`,
/// without the separators at its end, with `.tmp` after it. It lies in the
/// directory of `dest` and is never `dest` itself.
pub open spec fn temp_path(dest: Seq<char>) -> Seq<char> {
    trim_sep(dest) + ".tmp"@
}

/// The place where a write is prepared is another path than its
/// destination.
pub proof fn lemma_temp_path_differs(dest: Seq<char>)
    ensures
        temp_path(dest) != dest,
{
    reveal_strlit(".tmp");
    let kept = trim_sep(dest);
    let dropped = back_run_len(dest, is_char('/'));
    lemma_back_run_bound(dest, is_char('/'));
    assert(temp_path(dest).len() == kept.len() + 4);
    if temp_path(dest).len() == dest.len() {
        assert(dropped == 4);
        assert(dest.last() == '/');
        assert(temp_path(dest).last() == 'p');
    }
}

/// The place where a write is prepared lies in the directory of its
/// destination.
pub proof fn lemma_temp_path_is_sibling(dest: Seq<char>)
    requires
        parent(dest) is Some,
    ensures
        parent(temp_path(dest)) == parent(dest),
{
    reveal_strlit(".tmp");
    let kept = trim_sep(dest);
    let temp = temp_path(dest);
    let one = kept.push('.');
    let two = one.push('t');
    let three = two.push('m');
    let four = three.push('p');
    assert(temp =~= four);
    assert(one.drop_last() =~= kept);
    assert(two.drop_last() =~= one);
    assert(three.drop_last() =~= two);
    assert(four.drop_last() =~= three);
    let name = not_char('/');
    assert(name('.') && name('t') && name('m') && name('p'));
    assert(back_run_len(one, name) == 1 + back_run_len(kept, name));
    assert(back_run_len(two, name) == 1 + back_run_len(one, name));
    assert(back_run_len(three, name) == 1 + back_run_len(two, name));
    assert(back_run_len(four, name) == 1 + back_run_len(three, name));
    assert(!is_char('/')(four.last()));
    assert(back_run_len(four, is_char('/')) == 0);
    assert(trim_sep(temp) =~= temp);
    lemma_back_run_bound(dest, is_char('/'));
    assert(trim_sep(kept) =~= kept) by {
        lemma_trim_sep_is_trimmed(dest);
    }
    lemma_back_run_bound(kept, name);
    assert(back_run_len(temp, name) == 4 + back_run_len(kept, name));
    assert(temp.subrange(0, temp.len() - back_run_len(temp, name)) =~= kept.subrange(
        0,
        kept.len() - back_run_len(kept, name),
    ));
}

/// What is left without the separators at its end has none at its end.
proof fn lemma_trim_sep_is_trimmed(p: Seq<char>)
    ensures
        back_run_len(trim_sep(p), is_char('/')) == 0,
    decreases p.len(),
{
    if p.len() > 0 && is_char('/')(p.last()) {
        lemma_trim_sep_is_trimmed(p.drop_last());
        lemma_back_run_bound(p.drop_last(), is_char('/'));
        assert(trim_sep(p) =~= trim_sep(p.drop_last()));
    } else {
        assert(trim_sep(p) =~= p);
    }
}

/// A run at the end of `p` is no longer than `p`.
proof fn lemma_back_run_bound(p: Seq<char>, holds: spec_fn(char) -> bool)
    ensures
        back_run_len(p, holds) <= p.len(),
    decreases p.len(),
{
    if p.len() > 0 && holds(p.last()) {
        lemma_back_run_bound(p.drop_last(), holds);
    }
}

/// Computes [`temp_path`].
pub fn temp_path_of(dest: &str) -> (r: String)
    ensures
        r@ == temp_path(dest@),
        r@ != dest@,
{
    let v = chars_of(dest);
    let end = skip_char_back(&v, '/', 0, v.len());
    proof {
        assert(v@.subrange(0, v.len() as int) == v@);
        lemma_temp_path_differs(dest@);
    }
    let mut r = string_of_range(&v, 0, end);
    push_text(&mut r, ".tmp");
    r
}

/// One step of a change to the file system.
#[derive(Debug, PartialEq, Eq)]
pub enum FsStep {
    /// Create the directory `dir` and every directory above it that is
    /// missing.
    CreateDirAll { dir: String },
    /// Copy the file `from` to `to`.
    Copy { from: String, to: String },
    /// Write the data at hand to `to`, and force data and metadata to stable
    /// storage.
    WriteSynced { to: String },
    /// Rename `from` to `to`, replacing what was there.
    Rename { from: String, to: String },
}

/// The view of a [`FsStep`].
pub enum StepView {
    CreateDirAll { dir: Seq<char> },
    Copy { from: Seq<char>, to: Seq<char> },
    WriteSynced { to: Seq<char> },
    Rename { from: Seq<char>, to: Seq<char> },
}

impl View for FsStep {
    type V = StepView;

    open spec fn view(&self) -> StepView {
        match *self {
            FsStep::CreateDirAll { dir } => StepView::CreateDirAll { dir: dir@ },
            FsStep::Copy { from, to } => StepView::Copy { from: from@, to: to@ },
            FsStep::WriteSynced { to } => StepView::WriteSynced { to: to@ },
            FsStep::Rename { from, to } => StepView::Rename { from: from@, to: to@ },
        }
    }
}

/// The views of a list of steps.
pub open spec fn step_views(v: Seq<FsStep>) -> Seq<StepView> {
    Seq::new(v.len(), |i: int| v[i]@)
}

/// The step that makes sure that the directory of `dest` is there, if `dest`
/// has one.
pub open spec fn parent_step(dest: Seq<char>) -> Seq<StepView> {
    match parent(dest) {
        Some(dir) => seq![StepView::CreateDirAll { dir }],
        None => Seq::empty(),
    }
}

/// The steps that put a copy of `source` at `dest`: the copy is made beside
/// `dest` and renamed in one step, so that `dest` never holds half a file.
pub open spec fn copy_plan(source: Seq<char>, dest: Seq<char>) -> Seq<StepView> {
    parent_step(dest) + seq![
        StepView::Copy { from: source, to: temp_path(dest) },
        StepView::Rename { from: temp_path(dest), to: dest },
    ]
}

/// The steps that put the data at hand at `dest`: they are written beside
/// `dest`, forced to stable storage and renamed in one step.
pub open spec fn write_plan(dest: Seq<char>) -> Seq<StepView> {
    parent_step(dest) + seq![
        StepView::WriteSynced { to: temp_path(dest) },
        StepView::Rename { from: temp_path(dest), to: dest },
    ]
}

/// The steps of `parent_step`, ready to run.
fn plan_start(dest: &str) -> (r: Vec<FsStep>)
    ensures
        step_views(r@) == parent_step(dest@),
{
    let mut plan: Vec<FsStep> = Vec::new();
    match parent_of(dest) {
        Some(dir) => {
            plan.push(FsStep::CreateDirAll { dir });
        },
        None => {},
    }
    assert(step_views(plan@) =~= parent_step(dest@));
    plan
}

/// Computes [`copy_plan`]. The caller carries out the steps in the order
/// and to the end that [`crate::progress::next_step`] gives; a failure may
/// leave the copy beside `dest` behind.
pub fn copy_atomic(source: &str, dest: &str) -> (r: Vec<FsStep>)
    ensures
        step_views(r@) == copy_plan(source@, dest@),
{
    let mut plan = plan_start(dest);
    let ghost start = step_views(plan@);
    plan.push(FsStep::Copy { from: owned(source), to: temp_path_of(dest) });
    plan.push(FsStep::Rename { from: temp_path_of(dest), to: owned(dest) });
    assert(step_views(plan@) =~= start + seq![
        StepView::Copy { from: source@, to: temp_path(dest@) },
        StepView::Rename { from: temp_path(dest@), to: dest@ },
    ]);
    plan
}

/// Computes [`write_plan`]. The caller carries out the steps, with the data
/// to write at hand, in the order and to the end that
/// [`crate::progress::next_step`] gives.
pub fn write_atomic(dest: &str) -> (r: Vec<FsStep>)
    ensures
        step_views(r@) == write_plan(dest@),
{
    let mut plan = plan_start(dest);
    let ghost start = step_views(plan@);
    plan.push(FsStep::WriteSynced { to: temp_path_of(dest) });
    plan.push(FsStep::Rename { from: temp_path_of(dest), to: owned(dest) });
    assert(step_views(plan@) =~= start + seq![
        StepView::WriteSynced { to: temp_path(dest@) },
        StepView::Rename { from: temp_path(dest@), to: dest@ },
    ]);
    plan
}

/// What lies at a path: a whole file with its content, or what a write
/// that did not finish left behind.
pub enum Content {
    Whole(Seq<u8>),
    Partial,
}

/// What lies at `path` on `disk`, a map from the paths of the files that
/// exist; `None` where nothing does.
pub open spec fn at(disk: Map<Seq<char>, Content>, path: Seq<char>) -> Option<Content> {
    if disk.dom().contains(path) {
        Some(disk[path])
    } else {
        None
    }
}

/// Whether carrying out `step`, with `data` at hand to write, can take the
/// files from `before` to `after`, with success if `ok` and with failure if
/// not.
///
/// Making directories changes no file. A copy or a write that succeeds puts
/// the whole content at its target; one that fails may leave anything at its
/// target and changes nothing else. A rename either moves the file or, where
/// it fails, changes nothing.
pub open spec fn carries_out(
    step: StepView,
    data: Seq<u8>,
    before: Map<Seq<char>, Content>,
    after: Map<Seq<char>, Content>,
    ok: bool,
) -> bool {
    match step {
        StepView::CreateDirAll { dir } => after == before,
        StepView::Copy { from, to } => if ok {
            before.dom().contains(from) && after == before.insert(to, before[from])
        } else {
            forall|p: Seq<char>| p != to ==> at(after, p) == at(before, p)
        },
        StepView::WriteSynced { to } => if ok {
            after == before.insert(to, Content::Whole(data))
        } else {
            forall|p: Seq<char>| p != to ==> at(after, p) == at(before, p)
        },
        StepView::Rename { from, to } => if ok {
            before.dom().contains(from) && after == before.remove(from).insert(to, before[from])
        } else {
            after == before
        },
    }
}

/// Whether carrying out the steps of `plan` in order, stopping at the first
/// that fails, can take the files from `before` to `after`; `done` says
/// whether every step succeeded.
pub open spec fn carries_out_all(
    plan: Seq<StepView>,
    data: Seq<u8>,
    before: Map<Seq<char>, Content>,
    after: Map<Seq<char>, Content>,
    done: bool,
) -> bool
    decreases plan.len(),
{
    if plan.len() == 0 {
        done && after == before
    } else {
        exists|between: Map<Seq<char>, Content>, ok: bool| #[trigger]
            carries_out(plan[0], data, before, between, ok) && if ok {
                carries_out_all(plan.subrange(1, plan.len() as int), data, between, after, done)
            } else {
                !done && after == between
            }
    }
}

/// The two last steps of a copy or a write, of which the first prepares the
/// file at `temp`, leave `dest` as it was unless both succeed.
proof fn lemma_prepare_then_rename(
    first: StepView,
    temp: Seq<char>,
    dest: Seq<char>,
    data: Seq<u8>,
    before: Map<Seq<char>, Content>,
    after: Map<Seq<char>, Content>,
    done: bool,
)
    requires
        temp != dest,
        first == (StepView::Copy { from: first->Copy_from, to: temp }) || first == (
        StepView::WriteSynced { to: temp }),
        carries_out_all(seq![first, StepView::Rename { from: temp, to: dest }], data, before, after, done),
    ensures
        !done ==> at(after, dest) == at(before, dest),
        done && first is WriteSynced ==> at(after, dest) == Some(Content::Whole(data)),
        done && first is Copy ==> at(after, dest) == at(before, first->Copy_from),
{
    let plan = seq![first, StepView::Rename { from: temp, to: dest }];
    let (mid, ok) = choose|mid: Map<Seq<char>, Content>, ok: bool| #[trigger]
        carries_out(plan[0], data, before, mid, ok) && if ok {
            carries_out_all(plan.subrange(1, plan.len() as int), data, mid, after, done)
        } else {
            !done && after == mid
        };
    assert(at(mid, dest) == at(before, dest));
    if ok {
        let rest = plan.subrange(1, plan.len() as int);
        assert(rest[0] == StepView::Rename { from: temp, to: dest });
        let (last, moved) = choose|last: Map<Seq<char>, Content>, moved: bool| #[trigger]
            carries_out(rest[0], data, mid, last, moved) && if moved {
                carries_out_all(rest.subrange(1, rest.len() as int), data, last, after, done)
            } else {
                !done && after == last
            };
        if moved {
            assert(rest.subrange(1, rest.len() as int).len() == 0);
            assert(after == last);
        }
    }
}

/// A copy that is cut short at any step leaves the destination as it was,
/// absent or with its old content; one that runs to its end leaves the whole
/// content of the source there. The destination never holds half a file.
pub proof fn lemma_copy_is_atomic(
    source: Seq<char>,
    dest: Seq<char>,
    data: Seq<u8>,
    before: Map<Seq<char>, Content>,
    after: Map<Seq<char>, Content>,
    done: bool,
)
    requires
        carries_out_all(copy_plan(source, dest), data, before, after, done),
    ensures
        done ==> at(after, dest) == at(before, source),
        !done ==> at(after, dest) == at(before, dest),
{
    let plan = copy_plan(source, dest);
    let core = seq![
        StepView::Copy { from: source, to: temp_path(dest) },
        StepView::Rename { from: temp_path(dest), to: dest },
    ];
    lemma_after_parent_step(dest, core, data, before, after, done);
    lemma_temp_path_differs(dest);
    if carries_out_all(core, data, before, after, done) {
        assert(core =~= seq![core[0], StepView::Rename { from: temp_path(dest), to: dest }]);
        lemma_prepare_then_rename(core[0], temp_path(dest), dest, data, before, after, done);
    }
}

/// A write that is cut short at any step leaves the destination as it was;
/// one that runs to its end leaves the whole data there.
pub proof fn lemma_write_is_atomic(
    dest: Seq<char>,
    data: Seq<u8>,
    before: Map<Seq<char>, Content>,
    after: Map<Seq<char>, Content>,
    done: bool,
)
    requires
        carries_out_all(write_plan(dest), data, before, after, done),
    ensures
        done ==> at(after, dest) == Some(Content::Whole(data)),
        !done ==> at(after, dest) == at(before, dest),
{
    let core = seq![
        StepView::WriteSynced { to: temp_path(dest) },
        StepView::Rename { from: temp_path(dest), to: dest },
    ];
    lemma_after_parent_step(dest, core, data, before, after, done);
    lemma_temp_path_differs(dest);
    if carries_out_all(core, data, before, after, done) {
        assert(core =~= seq![core[0], StepView::Rename { from: temp_path(dest), to: dest }]);
        lemma_prepare_then_rename(core[0], temp_path(dest), dest, data, before, after, done);
    }
}

/// Making the directory of `dest` first changes no file: either it fails
/// and nothing has happened, or the steps after it start from the same
/// files.
proof fn lemma_after_parent_step(
    dest: Seq<char>,
    core: Seq<StepView>,
    data: Seq<u8>,
    before: Map<Seq<char>, Content>,
    after: Map<Seq<char>, Content>,
    done: bool,
)
    requires
        core.len() > 0,
        carries_out_all(parent_step(dest) + core, data, before, after, done),
    ensures
        carries_out_all(core, data, before, after, done) || (!done && after == before),
{
    let plan = parent_step(dest) + core;
    if parent(dest) is Some {
        let (mid, ok) = choose|mid: Map<Seq<char>, Content>, ok: bool| #[trigger]
            carries_out(plan[0], data, before, mid, ok) && if ok {
                carries_out_all(plan.subrange(1, plan.len() as int), data, mid, after, done)
            } else {
                !done && after == mid
            };
        assert(mid == before);
        assert(plan.subrange(1, plan.len() as int) == core);
    } else {
        assert(plan == core);
    }
}

} // verus!
