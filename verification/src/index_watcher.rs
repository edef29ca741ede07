//! Runtime watch events: the batching of changed and removed paths, the roots a
//! failure or overflow leaves dirty, and the roots of an index.

use vstd::prelude::*;
use crate::index_entry::{IndexDegradationCode, IndexedEntry};
use crate::paths::{
    comps_view, components_of, comps_prefix, path_components, path_starts_with, set_add_path,
    set_add_paths, set_remove_path, sorted_paths, strings_view, PathSet,
};
use crate::text::owned;

verus! {

broadcast use vstd::string::group_string_axioms;

/// How many events the bounded watch channel holds.
pub const DEFAULT_WATCH_CHANNEL_CAPACITY: usize = 8192;

#[derive(Debug, Clone, PartialEq, Eq)]
pub enum IndexWatchEvent {
    Create(String),
    Write(String),
    Remove(String),
    Rename { from: String, to: String },
}

#[derive(Debug, Clone, Copy, PartialEq, Eq, Structural)]
pub enum WatchSendOutcome {
    Queued,
    Filtered,
    Overflowed,
    Disconnected,
}

/// The paths an event names, renames with both.
pub open spec fn event_paths_spec(event: IndexWatchEvent) -> Seq<Seq<char>> {
    match event {
        IndexWatchEvent::Create(p) => seq![p@],
        IndexWatchEvent::Write(p) => seq![p@],
        IndexWatchEvent::Remove(p) => seq![p@],
        IndexWatchEvent::Rename { from, to } => seq![from@, to@],
    }
}

/// The non-empty paths an event names, in order; a filter accepts an event when
/// it accepts one of them.
pub fn event_paths(event: &IndexWatchEvent) -> (r: Vec<String>)
    ensures
        strings_view(r@) == event_paths_spec(*event).filter(|p: Seq<char>| p.len() > 0),
{
    let mut out: Vec<String> = Vec::new();
    match event {
        IndexWatchEvent::Create(p) | IndexWatchEvent::Write(p) | IndexWatchEvent::Remove(p) => {
            if !p.as_str().is_empty() {
                out.push(p.clone());
            }
            proof {
                reveal_with_fuel(Seq::filter, 2);
                assert(seq![p@].drop_last() =~= Seq::<Seq<char>>::empty());
                assert(strings_view(out@) =~= seq![p@].filter(|q: Seq<char>| q.len() > 0));
            }
        },
        IndexWatchEvent::Rename { from, to } => {
            if !from.as_str().is_empty() {
                out.push(from.clone());
            }
            if !to.as_str().is_empty() {
                out.push(to.clone());
            }
            proof {
                reveal_with_fuel(Seq::filter, 3);
                assert(seq![from@, to@].drop_last() =~= seq![from@]);
                assert(seq![from@].drop_last() =~= Seq::<Seq<char>>::empty());
                assert(strings_view(out@) =~= seq![from@, to@].filter(|q: Seq<char>| q.len() > 0));
            }
        },
    }
    out
}

/// The changed and removed paths of a drained batch, each in path order.
#[derive(Debug, Clone, PartialEq, Eq, Default)]
pub struct IndexUpdateBatch {
    pub changed_paths: Vec<String>,
    pub removed_paths: Vec<String>,
}

/// The changed and removed sets after one event: a create or write marks its
/// path changed and no longer removed, a remove the reverse, and a rename
/// removes its source and changes its target.
pub open spec fn batch_after(
    changed: Set<Seq<char>>,
    removed: Set<Seq<char>>,
    event: IndexWatchEvent,
) -> (Set<Seq<char>>, Set<Seq<char>>) {
    match event {
        IndexWatchEvent::Create(p) => (set_add_path(changed, p@), set_remove_path(removed, p@)),
        IndexWatchEvent::Write(p) => (set_add_path(changed, p@), set_remove_path(removed, p@)),
        IndexWatchEvent::Remove(p) => (set_remove_path(changed, p@), set_add_path(removed, p@)),
        IndexWatchEvent::Rename { from, to } => (
            set_add_path(set_remove_path(changed, from@), to@),
            set_remove_path(set_add_path(removed, from@), to@),
        ),
    }
}

/// Collapses watch events into one set of changed and one of removed paths.
#[derive(Debug)]
pub struct IndexEventBatcher {
    changed_paths: PathSet,
    removed_paths: PathSet,
}

impl Default for IndexEventBatcher {
    fn default() -> (r: Self)
        ensures
            r.changed_listed() == Seq::<Seq<char>>::empty(),
            r.removed_listed() == Seq::<Seq<char>>::empty(),
    {
        IndexEventBatcher { changed_paths: PathSet::new(), removed_paths: PathSet::new() }
    }
}

impl IndexEventBatcher {
    /// The changed paths, in path order.
    pub closed spec fn changed_listed(&self) -> Seq<Seq<char>> {
        self.changed_paths.listed()
    }

    /// The removed paths, in path order.
    pub closed spec fn removed_listed(&self) -> Seq<Seq<char>> {
        self.removed_paths.listed()
    }

    pub fn push(&mut self, event: IndexWatchEvent)
        ensures
            (final(self).changed_listed().to_set(), final(self).removed_listed().to_set()) == batch_after(
                old(self).changed_listed().to_set(),
                old(self).removed_listed().to_set(),
                event,
            ),
            sorted_paths(final(self).changed_listed()),
            sorted_paths(final(self).removed_listed()),
    {
        match event {
            IndexWatchEvent::Create(path) | IndexWatchEvent::Write(path) => {
                self.removed_paths.remove(path.as_str());
                self.changed_paths.insert(path);
            },
            IndexWatchEvent::Remove(path) => {
                self.changed_paths.remove(path.as_str());
                self.removed_paths.insert(path);
            },
            IndexWatchEvent::Rename { from, to } => {
                self.changed_paths.remove(from.as_str());
                self.removed_paths.insert(from);
                self.removed_paths.remove(to.as_str());
                self.changed_paths.insert(to);
            },
        }
    }

    /// Hands out both sets in path order and leaves the batcher empty.
    pub fn drain_batch(&mut self) -> (r: IndexUpdateBatch)
        ensures
            strings_view(r.changed_paths@) == old(self).changed_listed(),
            strings_view(r.removed_paths@) == old(self).removed_listed(),
            sorted_paths(strings_view(r.changed_paths@)),
            sorted_paths(strings_view(r.removed_paths@)),
            final(self).changed_listed() == Seq::<Seq<char>>::empty(),
            final(self).removed_listed() == Seq::<Seq<char>>::empty(),
    {
        let changed_paths = self.changed_paths.take_all();
        let removed_paths = self.removed_paths.take_all();
        IndexUpdateBatch { changed_paths, removed_paths }
    }

    pub fn is_empty(&self) -> (r: bool)
        ensures
            r == (self.changed_listed().len() == 0 && self.removed_listed().len() == 0),
    {
        self.changed_paths.is_empty() && self.removed_paths.is_empty()
    }

    /// The number of pending paths, saturating at `usize::MAX`: the changed
    /// and the removed paths, each counted once.
    pub fn len(&self) -> (r: usize)
        ensures
            r == (if self.changed_listed().len() + self.removed_listed().len() > usize::MAX {
                usize::MAX as int
            } else {
                (self.changed_listed().len() + self.removed_listed().len()) as int
            }),
            r == (if self.changed_listed().to_set().len() + self.removed_listed().to_set().len() > usize::MAX {
                usize::MAX as int
            } else {
                (self.changed_listed().to_set().len() + self.removed_listed().to_set().len()) as int
            }),
    {
        let changed = self.changed_paths.len();
        let removed = self.removed_paths.len();
        proof {
            crate::paths::lemma_sorted_paths_count_their_set(self.changed_listed());
            crate::paths::lemma_sorted_paths_count_their_set(self.removed_listed());
        }
        changed.saturating_add(removed)
    }
}

/// A watcher that failed for a root; the index falls back to a background refresh.
#[derive(Debug, Clone, PartialEq, Eq)]
pub struct WatcherFailure {
    pub root: String,
    pub message: String,
    pub diagnostic: String,
    pub requires_background_refresh: bool,
}

impl WatcherFailure {
    /// The message names no path; the cause goes to the diagnostic.
    pub fn new(root: String, diagnostic: String) -> (r: Self)
        ensures
            r.root == root,
            r.message@ == "watcher failed; falling back to background refresh"@,
            r.diagnostic == diagnostic,
            r.requires_background_refresh,
    {
        WatcherFailure {
            root,
            message: owned("watcher failed; falling back to background refresh"),
            diagnostic,
            requires_background_refresh: true,
        }
    }
}

// ---------------------------------------------------------------------------
// Dirty roots
// ---------------------------------------------------------------------------

/// The number of components of a path.
pub open spec fn depth_of(p: Seq<char>) -> nat {
    path_components(p).len()
}

/// The deepest watched root that `path` lies under; of equally deep ones the last.
pub open spec fn deepest_root(path: Seq<char>, roots: Seq<Seq<char>>) -> Option<int>
    decreases roots.len(),
{
    if roots.len() == 0 {
        None
    } else {
        let prev = deepest_root(path, roots.drop_last());
        let i = roots.len() - 1;
        if path_starts_with(path, roots[i]) && (match prev {
            Some(j) => depth_of(roots[j]) <= depth_of(roots[i]),
            None => true,
        }) {
            Some(i)
        } else {
            prev
        }
    }
}

proof fn lemma_deepest_root_in_range(path: Seq<char>, roots: Seq<Seq<char>>)
    ensures
        deepest_root(path, roots) matches Some(j) ==> 0 <= j < roots.len() && path_starts_with(path, roots[j]),
    decreases roots.len(),
{
    if roots.len() > 0 {
        lemma_deepest_root_in_range(path, roots.drop_last());
    }
}

/// The position of the deepest watched root that `path` lies under.
pub fn longest_matching_root(path: &str, roots: &[String]) -> (r: Option<usize>)
    ensures
        r matches Some(i) ==> i < roots@.len(),
        r == (match deepest_root(path@, strings_view(roots@)) {
            Some(i) => Some(i as usize),
            None => None::<usize>,
        }),
{
    let ghost rv = strings_view(roots@);
    let pc = components_of(path);
    let mut best: Option<usize> = None;
    let mut best_depth: usize = 0;
    let mut i: usize = 0;
    proof {
        assert(rv.take(0) =~= Seq::<Seq<char>>::empty());
    }
    while i < roots.len()
        invariant
            i <= roots@.len(),
            rv == strings_view(roots@),
            comps_view(pc@) == path_components(path@),
            best == (match deepest_root(path@, rv.take(i as int)) {
                Some(j) => Some(j as usize),
                None => None::<usize>,
            }),
            best matches Some(j) ==> j < i && best_depth == depth_of(rv[j as int]),
        decreases roots@.len() - i,
    {
        proof {
            assert(rv.take(i + 1).drop_last() =~= rv.take(i as int));
            assert(rv.take(i + 1)[i as int] == rv[i as int]);
            lemma_deepest_root_in_range(path@, rv.take(i as int));
            if let Some(j) = best {
                assert(rv.take(i + 1)[j as int] == rv[j as int]);
            }
        }
        let rc = components_of(roots[i].as_str());
        proof {
            assert(comps_view(rc@).len() == rc@.len());
        }
        let matched = comps_prefix(pc.as_slice(), rc.as_slice());
        let d = rc.len();
        let better = match best {
            Some(_) => best_depth <= d,
            None => true,
        };
        if matched && better {
            best = Some(i);
            best_depth = d;
        }
        i = i + 1;
    }
    proof {
        assert(rv.take(roots@.len() as int) =~= rv);
    }
    best
}

/// The roots a path contributes: its deepest root, if it is non-empty and lies
/// under one.
pub open spec fn path_root(path: Seq<char>, roots: Seq<Seq<char>>) -> Seq<Seq<char>> {
    if path.len() > 0 && deepest_root(path, roots) is Some {
        seq![roots[deepest_root(path, roots)->0]]
    } else {
        Seq::empty()
    }
}

/// The roots that a list of paths marks dirty, in order.
pub open spec fn paths_roots(paths: Seq<Seq<char>>, roots: Seq<Seq<char>>) -> Seq<Seq<char>>
    decreases paths.len(),
{
    if paths.len() == 0 {
        Seq::empty()
    } else {
        paths_roots(paths.drop_last(), roots) + path_root(paths.last(), roots)
    }
}

/// The roots marked dirty for `paths`: the deepest root of each, or, when no path
/// lies under a root and `dirty_all_if_unmatched` is set, every root.
pub open spec fn dirty_roots_for(
    paths: Seq<Seq<char>>,
    roots: Seq<Seq<char>>,
    dirty_all_if_unmatched: bool,
) -> Seq<Seq<char>> {
    let matched = paths_roots(paths, roots);
    if matched.len() == 0 && dirty_all_if_unmatched {
        roots
    } else {
        matched
    }
}

/// What a watch channel's sender and receiver share: the roots that must be
/// recalibrated, the latest failure and the latest degradation.
#[derive(Debug)]
pub struct WatchInboxState {
    dirty_roots: PathSet,
    latest_failure: Option<WatcherFailure>,
    latest_degradation: Option<IndexDegradationCode>,
}

impl Default for WatchInboxState {
    fn default() -> (r: Self)
        ensures
            r.dirty_listed() == Seq::<Seq<char>>::empty(),
            r.failure_spec().is_none(),
            r.degradation_spec().is_none(),
    {
        WatchInboxState { dirty_roots: PathSet::new(), latest_failure: None, latest_degradation: None }
    }
}

impl WatchInboxState {
    /// The dirty roots, in path order.
    pub closed spec fn dirty_listed(&self) -> Seq<Seq<char>> {
        self.dirty_roots.listed()
    }

    pub closed spec fn failure_spec(&self) -> Option<WatcherFailure> {
        self.latest_failure
    }

    pub closed spec fn degradation_spec(&self) -> Option<IndexDegradationCode> {
        self.latest_degradation
    }

    fn add_roots(&mut self, roots: &Vec<String>)
        ensures
            final(self).dirty_listed().to_set() == set_add_paths(
                old(self).dirty_listed().to_set(),
                strings_view(roots@),
            ),
            final(self).failure_spec() == old(self).failure_spec(),
            final(self).degradation_spec() == old(self).degradation_spec(),
    {
        let ghost rv = strings_view(roots@);
        let ghost start = self.dirty_listed().to_set();
        let mut i: usize = 0;
        proof {
            assert(rv.take(0) =~= Seq::<Seq<char>>::empty());
        }
        while i < roots.len()
            invariant
                i <= roots@.len(),
                rv == strings_view(roots@),
                self.dirty_listed().to_set() == set_add_paths(start, rv.take(i as int)),
                self.failure_spec() == old(self).failure_spec(),
                self.degradation_spec() == old(self).degradation_spec(),
            decreases roots@.len() - i,
        {
            proof {
                assert(rv.take(i + 1).drop_last() =~= rv.take(i as int));
            }
            self.dirty_roots.insert(roots[i].clone());
            i = i + 1;
        }
        proof {
            assert(rv.take(roots@.len() as int) =~= rv);
        }
    }

    /// Marks the deepest root of each path dirty; with `dirty_all_if_unmatched`,
    /// every root when no path lies under one.
    pub fn mark_paths_dirty(&mut self, paths: &[String], watched_roots: &[String], dirty_all_if_unmatched: bool)
        ensures
            final(self).dirty_listed().to_set() == set_add_paths(
                old(self).dirty_listed().to_set(),
                dirty_roots_for(strings_view(paths@), strings_view(watched_roots@), dirty_all_if_unmatched),
            ),
            final(self).failure_spec() == old(self).failure_spec(),
            final(self).degradation_spec() == old(self).degradation_spec(),
    {
        let ghost pv = strings_view(paths@);
        let ghost rv = strings_view(watched_roots@);
        let mut chosen: Vec<String> = Vec::new();
        let mut i: usize = 0;
        proof {
            assert(pv.take(0) =~= Seq::<Seq<char>>::empty());
            assert(strings_view(chosen@) =~= paths_roots(pv.take(0), rv));
        }
        while i < paths.len()
            invariant
                i <= paths@.len(),
                pv == strings_view(paths@),
                rv == strings_view(watched_roots@),
                strings_view(chosen@) == paths_roots(pv.take(i as int), rv),
            decreases paths@.len() - i,
        {
            proof {
                assert(pv.take(i + 1).drop_last() =~= pv.take(i as int));
                assert(pv.take(i + 1).last() == paths@[i as int]@);
            }
            let ghost before = strings_view(chosen@);
            proof {
                lemma_deepest_root_in_range(paths@[i as int]@, rv);
            }
            if !paths[i].as_str().is_empty() {
                match longest_matching_root(paths[i].as_str(), watched_roots) {
                    Some(k) => {
                        chosen.push(watched_roots[k].clone());
                        proof {
                            assert(strings_view(chosen@) =~= before + seq![rv[k as int]]);
                        }
                    },
                    None => {
                        proof {
                            assert(strings_view(chosen@) =~= before + Seq::<Seq<char>>::empty());
                        }
                    },
                }
            } else {
                proof {
                    assert(strings_view(chosen@) =~= before + Seq::<Seq<char>>::empty());
                }
            }
            i = i + 1;
        }
        proof {
            assert(pv.take(paths@.len() as int) =~= pv);
        }
        if chosen.len() == 0 && dirty_all_if_unmatched {
            let mut all: Vec<String> = Vec::new();
            let mut k: usize = 0;
            while k < watched_roots.len()
                invariant
                    k <= watched_roots@.len(),
                    rv == strings_view(watched_roots@),
                    strings_view(all@) == rv.take(k as int),
                decreases watched_roots@.len() - k,
            {
                all.push(watched_roots[k].clone());
                proof {
                    assert(rv.take(k + 1) =~= rv.take(k as int).push(rv[k as int]));
                    assert(strings_view(all@) =~= rv.take(k + 1));
                }
                k = k + 1;
            }
            proof {
                assert(rv.take(watched_roots@.len() as int) =~= rv);
            }
            self.add_roots(&all);
        } else {
            self.add_roots(&chosen);
        }
    }

    /// Marks the roots of an event's paths dirty, after the channel overflowed.
    pub fn mark_event_roots_dirty(&mut self, event: &IndexWatchEvent, watched_roots: &[String])
        ensures
            final(self).dirty_listed().to_set() == set_add_paths(
                old(self).dirty_listed().to_set(),
                dirty_roots_for(
                    event_paths_spec(*event).filter(|p: Seq<char>| p.len() > 0),
                    strings_view(watched_roots@),
                    false,
                ),
            ),
            final(self).failure_spec() == old(self).failure_spec(),
            final(self).degradation_spec() == old(self).degradation_spec(),
    {
        let paths = event_paths(event);
        self.mark_paths_dirty(paths.as_slice(), watched_roots, false);
    }

    pub fn record_degradation(&mut self, code: IndexDegradationCode)
        ensures
            final(self).degradation_spec() == Some(code),
            final(self).dirty_listed() == old(self).dirty_listed(),
            final(self).failure_spec() == old(self).failure_spec(),
    {
        self.latest_degradation = Some(code);
    }

    /// Records a watcher failure: its root, or every watched root when it names
    /// none, becomes dirty, and the degradation is a runtime watcher failure.
    pub fn record_failure(&mut self, failure: WatcherFailure, watched_roots: &[String])
        ensures
            final(self).dirty_listed().to_set() == (if failure.root@.len() == 0 {
                set_add_paths(old(self).dirty_listed().to_set(), strings_view(watched_roots@))
            } else {
                set_add_path(old(self).dirty_listed().to_set(), failure.root@)
            }),
            final(self).failure_spec() == Some(failure),
            final(self).degradation_spec() == Some(IndexDegradationCode::WatcherRuntimeFailed),
    {
        if failure.root.as_str().is_empty() {
            let mut all: Vec<String> = Vec::new();
            let ghost rv = strings_view(watched_roots@);
            let mut k: usize = 0;
            while k < watched_roots.len()
                invariant
                    k <= watched_roots@.len(),
                    rv == strings_view(watched_roots@),
                    strings_view(all@) == rv.take(k as int),
                decreases watched_roots@.len() - k,
            {
                all.push(watched_roots[k].clone());
                proof {
                    assert(rv.take(k + 1) =~= rv.take(k as int).push(rv[k as int]));
                    assert(strings_view(all@) =~= rv.take(k + 1));
                }
                k = k + 1;
            }
            proof {
                assert(rv.take(watched_roots@.len() as int) =~= rv);
            }
            self.add_roots(&all);
        } else {
            self.dirty_roots.insert(failure.root.clone());
        }
        self.latest_failure = Some(failure);
        self.latest_degradation = Some(IndexDegradationCode::WatcherRuntimeFailed);
    }

    /// Hands out the dirty roots in path order and clears them.
    pub fn take_dirty_roots(&mut self) -> (r: Vec<String>)
        ensures
            strings_view(r@) == old(self).dirty_listed(),
            sorted_paths(strings_view(r@)),
            final(self).dirty_listed() == Seq::<Seq<char>>::empty(),
            final(self).failure_spec() == old(self).failure_spec(),
            final(self).degradation_spec() == old(self).degradation_spec(),
    {
        self.dirty_roots.take_all()
    }

    pub fn take_failure(&mut self) -> (r: Option<WatcherFailure>)
        ensures
            r == old(self).failure_spec(),
            final(self).failure_spec().is_none(),
            final(self).dirty_listed() == old(self).dirty_listed(),
            final(self).degradation_spec() == old(self).degradation_spec(),
    {
        self.latest_failure.take()
    }

    pub fn take_degradation_code(&mut self) -> (r: Option<IndexDegradationCode>)
        ensures
            r == old(self).degradation_spec(),
            final(self).degradation_spec().is_none(),
            final(self).dirty_listed() == old(self).dirty_listed(),
            final(self).failure_spec() == old(self).failure_spec(),
    {
        self.latest_degradation.take()
    }

    /// A native event the watcher cannot trust: the roots of its paths, or every
    /// root when none matches, become dirty and the degradation is an overflow.
    pub fn record_rescan(&mut self, paths: &[String], watched_roots: &[String])
        ensures
            final(self).dirty_listed().to_set() == set_add_paths(
                old(self).dirty_listed().to_set(),
                dirty_roots_for(strings_view(paths@), strings_view(watched_roots@), true),
            ),
            final(self).failure_spec() == old(self).failure_spec(),
            final(self).degradation_spec() == Some(IndexDegradationCode::WatcherOverflow),
    {
        self.mark_paths_dirty(paths, watched_roots, true);
        self.record_degradation(IndexDegradationCode::WatcherOverflow);
    }

    /// A native watcher error over `paths`: their roots, or every root when none
    /// matches, become dirty, and a failure charged to the deepest of those roots
    /// is recorded with the error text as its diagnostic.
    pub fn record_notify_error(&mut self, paths: &[String], watched_roots: &[String], diagnostic: String)
        ensures
            ({
                let root = error_root(strings_view(paths@), strings_view(watched_roots@));
                let marked = set_add_paths(
                    old(self).dirty_listed().to_set(),
                    dirty_roots_for(strings_view(paths@), strings_view(watched_roots@), true),
                );
                &&& final(self).dirty_listed().to_set() == (if root.len() == 0 {
                    set_add_paths(marked, strings_view(watched_roots@))
                } else {
                    set_add_path(marked, root)
                })
                &&& final(self).failure_spec() matches Some(f) && f.root@ == root && f.diagnostic == diagnostic
                    && f.message@ == "watcher failed; falling back to background refresh"@
                    && f.requires_background_refresh
                &&& final(self).degradation_spec() == Some(IndexDegradationCode::WatcherRuntimeFailed)
            }),
    {
        let ghost pv = strings_view(paths@);
        let ghost rv = strings_view(watched_roots@);
        let mut root = String::new();
        let mut root_depth: usize = 0;
        let mut have_root = false;
        let mut i: usize = 0;
        let ghost mut chosen: Seq<Seq<char>> = Seq::empty();
        proof {
            assert(pv.take(0) =~= Seq::<Seq<char>>::empty());
        }
        while i < paths.len()
            invariant
                i <= paths@.len(),
                pv == strings_view(paths@),
                rv == strings_view(watched_roots@),
                chosen == paths_roots(pv.take(i as int), rv),
                have_root == (deepest_listed(chosen) is Some),
                have_root ==> root@ == chosen[deepest_listed(chosen)->0] && root_depth == depth_of(root@),
                !have_root ==> root@ == Seq::<char>::empty(),
            decreases paths@.len() - i,
        {
            proof {
                assert(pv.take(i + 1).drop_last() =~= pv.take(i as int));
                assert(pv.take(i + 1).last() == paths@[i as int]@);
                lemma_deepest_root_in_range(paths@[i as int]@, rv);
                lemma_deepest_listed_in_range(chosen);
            }
            if !paths[i].as_str().is_empty() {
                match longest_matching_root(paths[i].as_str(), watched_roots) {
                    Some(k) => {
                        let d = components_of(watched_roots[k].as_str()).len();
                        proof {
                            let next = chosen.push(rv[k as int]);
                            assert(paths_roots(pv.take(i + 1), rv) =~= next);
                            assert(next.drop_last() =~= chosen);
                            assert(next[next.len() - 1] == rv[k as int]);
                            if let Some(j) = deepest_listed(chosen) {
                                assert(next[j] == chosen[j]);
                            }
                            chosen = next;
                        }
                        if !have_root || root_depth <= d {
                            root = watched_roots[k].clone();
                            root_depth = d;
                            have_root = true;
                        }
                    },
                    None => {
                        proof {
                            assert(paths_roots(pv.take(i + 1), rv) =~= chosen);
                        }
                    },
                }
            } else {
                proof {
                    assert(paths_roots(pv.take(i + 1), rv) =~= chosen);
                }
            }
            i = i + 1;
        }
        proof {
            assert(pv.take(paths@.len() as int) =~= pv);
        }
        self.mark_paths_dirty(paths, watched_roots, true);
        self.record_failure(WatcherFailure::new(root, diagnostic), watched_roots);
    }

    /// After a full channel refused `event`: its roots become dirty and the
    /// degradation is a channel overflow.
    pub fn record_channel_overflow(&mut self, event: &IndexWatchEvent, watched_roots: &[String]) -> (r: WatchSendOutcome)
        ensures
            r == WatchSendOutcome::Overflowed,
            final(self).dirty_listed().to_set() == set_add_paths(
                old(self).dirty_listed().to_set(),
                dirty_roots_for(
                    event_paths_spec(*event).filter(|p: Seq<char>| p.len() > 0),
                    strings_view(watched_roots@),
                    false,
                ),
            ),
            final(self).failure_spec() == old(self).failure_spec(),
            final(self).degradation_spec() == Some(IndexDegradationCode::ChannelOverflow),
    {
        self.mark_event_roots_dirty(event, watched_roots);
        self.record_degradation(IndexDegradationCode::ChannelOverflow);
        WatchSendOutcome::Overflowed
    }
}

/// Law: the roots an overflow marks dirty are only roots that one of the
/// event's paths lies under; an unwatched path dirties nothing.
pub proof fn lemma_marked_roots_cover_their_paths(paths: Seq<Seq<char>>, roots: Seq<Seq<char>>)
    ensures
        forall|k: int|
            0 <= k < paths_roots(paths, roots).len() ==> exists|j: int|
                0 <= j < paths.len() && paths[j].len() > 0 && #[trigger] roots.contains(paths_roots(paths, roots)[k])
                    && path_starts_with(paths[j], paths_roots(paths, roots)[k]),
    decreases paths.len(),
{
    if paths.len() > 0 {
        let prev = paths.drop_last();
        lemma_marked_roots_cover_their_paths(prev, roots);
        let last = paths.last();
        lemma_deepest_root_in_range(last, roots);
        let all = paths_roots(paths, roots);
        assert forall|k: int| 0 <= k < all.len() implies exists|j: int|
            0 <= j < paths.len() && paths[j].len() > 0 && #[trigger] roots.contains(all[k]) && path_starts_with(
                paths[j],
                all[k],
            ) by {
            if k < paths_roots(prev, roots).len() {
                let j = choose|j: int|
                    0 <= j < prev.len() && prev[j].len() > 0 && #[trigger] roots.contains(paths_roots(prev, roots)[k])
                        && path_starts_with(prev[j], paths_roots(prev, roots)[k]);
                assert(paths[j] == prev[j]);
                assert(all[k] == paths_roots(prev, roots)[k]);
            } else {
                let d = deepest_root(last, roots)->0;
                assert(all[k] == roots[d]);
                assert(roots.contains(roots[d]));
                assert(paths[paths.len() - 1] == last);
            }
        }
    }
}

/// No changed path is a spelling of a removed one.
pub open spec fn changed_and_removed_apart(changed: Set<Seq<char>>, removed: Set<Seq<char>>) -> bool {
    forall|a: Seq<char>, b: Seq<char>| #[trigger] changed.contains(a) && #[trigger] removed.contains(b) ==> !crate::paths::same_path(a, b)
}

/// Law: batching keeps a path from being both changed and removed, whatever
/// events arrive.
pub proof fn lemma_batch_keeps_changed_and_removed_apart(
    changed: Set<Seq<char>>,
    removed: Set<Seq<char>>,
    event: IndexWatchEvent,
)
    requires
        changed_and_removed_apart(changed, removed),
    ensures
        changed_and_removed_apart(batch_after(changed, removed, event).0, batch_after(changed, removed, event).1),
{
    let (c2, r2) = batch_after(changed, removed, event);
    assert forall|a: Seq<char>, b: Seq<char>| #[trigger] c2.contains(a) && #[trigger] r2.contains(b) implies !crate::paths::same_path(a, b) by {
        match event {
            IndexWatchEvent::Create(p) => {
                if a != p@ {
                    assert(changed.contains(a));
                    assert(removed.contains(b));
                }
            },
            IndexWatchEvent::Write(p) => {
                if a != p@ {
                    assert(changed.contains(a));
                    assert(removed.contains(b));
                }
            },
            IndexWatchEvent::Remove(p) => {
                if b != p@ {
                    assert(changed.contains(a));
                    assert(removed.contains(b));
                }
            },
            IndexWatchEvent::Rename { from, to } => {
                if a != to@ && b != from@ {
                    assert(changed.contains(a));
                    assert(removed.contains(b));
                } else if a != to@ {
                    assert(set_remove_path(changed, from@).contains(a));
                }
            },
        }
    }
}

// ---------------------------------------------------------------------------
// Native watcher events
// ---------------------------------------------------------------------------

/// How a native rename event relates its paths.
#[derive(Debug, Clone, Copy, PartialEq, Eq, Structural)]
pub enum NotifyRenameMode {
    Any,
    To,
    From,
    Both,
    Other,
}

/// The kind of a native watcher event, as far as indexing tells kinds apart.
#[derive(Debug, Clone, Copy, PartialEq, Eq, Structural)]
pub enum NotifyEventKind {
    Create,
    Remove,
    Rename(NotifyRenameMode),
    Modify,
    Other,
}

/// An event as plain values: its kind (create, write, remove, rename) and its
/// one or two paths.
pub open spec fn event_view(e: IndexWatchEvent) -> (int, Seq<char>, Seq<char>) {
    match e {
        IndexWatchEvent::Create(p) => (0, p@, Seq::empty()),
        IndexWatchEvent::Write(p) => (1, p@, Seq::empty()),
        IndexWatchEvent::Remove(p) => (2, p@, Seq::empty()),
        IndexWatchEvent::Rename { from, to } => (3, from@, to@),
    }
}

/// One event of kind `kind` for each path.
pub open spec fn per_path(kind: int, paths: Seq<Seq<char>>) -> Seq<(int, Seq<char>, Seq<char>)> {
    Seq::new(paths.len(), |i: int| (kind, paths[i], Seq::<char>::empty()))
}

/// The watch events of a native event: creates and removes per path, a rename of
/// both paths as one rename, a rename's source as a remove and its target as a
/// create, any other modification as a write per path; nothing for other kinds
/// or renames whose paths are uncertain.
pub open spec fn notify_events_spec(kind: NotifyEventKind, paths: Seq<Seq<char>>) -> Seq<(int, Seq<char>, Seq<char>)> {
    match kind {
        NotifyEventKind::Create => per_path(0, paths),
        NotifyEventKind::Remove => per_path(2, paths),
        NotifyEventKind::Rename(NotifyRenameMode::Both) => if paths.len() >= 2 {
            seq![(3, paths[0], paths[1])]
        } else {
            Seq::empty()
        },
        NotifyEventKind::Rename(NotifyRenameMode::From) => per_path(2, paths),
        NotifyEventKind::Rename(NotifyRenameMode::To) => per_path(0, paths),
        NotifyEventKind::Rename(_) => Seq::empty(),
        NotifyEventKind::Modify => per_path(1, paths),
        NotifyEventKind::Other => Seq::empty(),
    }
}

/// The views of a list of events.
pub open spec fn events_view(v: Seq<IndexWatchEvent>) -> Seq<(int, Seq<char>, Seq<char>)> {
    Seq::new(v.len(), |i: int| event_view(v[i]))
}

fn events_of_each(paths: &Vec<String>, kind: u8) -> (r: Vec<IndexWatchEvent>)
    requires
        kind < 3,
    ensures
        events_view(r@) == per_path(kind as int, strings_view(paths@)),
{
    let mut out: Vec<IndexWatchEvent> = Vec::new();
    let mut i: usize = 0;
    while i < paths.len()
        invariant
            kind < 3,
            i <= paths@.len(),
            out@.len() == i,
            events_view(out@) == per_path(kind as int, strings_view(paths@).take(i as int)),
        decreases paths@.len() - i,
    {
        let p = paths[i].clone();
        let e = if kind == 0 {
            IndexWatchEvent::Create(p)
        } else if kind == 1 {
            IndexWatchEvent::Write(p)
        } else {
            IndexWatchEvent::Remove(p)
        };
        assert(event_view(e) == (kind as int, paths@[i as int]@, Seq::<char>::empty()));
        let ghost before = out@;
        out.push(e);
        proof {
            assert(out@ == before.push(e));
            let sv = strings_view(paths@);
            assert(before.len() == i);
            assert(out@.len() == i + 1);
            assert(events_view(out@)[i as int] == event_view(e));
            assert(sv.take(i + 1)[i as int] == paths@[i as int]@);
            assert(per_path(kind as int, sv.take(i + 1))[i as int] == (kind as int, paths@[i as int]@, Seq::<char>::empty()));
            assert forall|j: int| 0 <= j <= i implies #[trigger] events_view(out@)[j] == per_path(kind as int, sv.take(i + 1))[j] by {
                if j < i {
                    assert(events_view(before)[j] == per_path(kind as int, sv.take(i as int))[j]);
                }
            }
            assert(events_view(out@) =~= per_path(kind as int, strings_view(paths@).take(i + 1)));
        }
        i = i + 1;
    }
    proof {
        assert(strings_view(paths@).take(paths@.len() as int) =~= strings_view(paths@));
    }
    out
}

/// The watch events of a native event of `kind` over `paths`.
pub fn events_from_notify(kind: NotifyEventKind, paths: Vec<String>) -> (r: Vec<IndexWatchEvent>)
    ensures
        events_view(r@) == notify_events_spec(kind, strings_view(paths@)),
{
    let r = match kind {
        NotifyEventKind::Create => events_of_each(&paths, 0),
        NotifyEventKind::Remove => events_of_each(&paths, 2),
        NotifyEventKind::Rename(NotifyRenameMode::Both) => {
            if paths.len() >= 2 {
                let from = paths[0].clone();
                let to = paths[1].clone();
                let v = vec![IndexWatchEvent::Rename { from, to }];
                proof {
                    assert(events_view(v@) =~= notify_events_spec(kind, strings_view(paths@)));
                }
                v
            } else {
                let v: Vec<IndexWatchEvent> = Vec::new();
                proof {
                    assert(events_view(v@) =~= notify_events_spec(kind, strings_view(paths@)));
                }
                v
            }
        },
        NotifyEventKind::Rename(NotifyRenameMode::From) => events_of_each(&paths, 2),
        NotifyEventKind::Rename(NotifyRenameMode::To) => events_of_each(&paths, 0),
        NotifyEventKind::Modify => events_of_each(&paths, 1),
        _ => {
            let v: Vec<IndexWatchEvent> = Vec::new();
            proof {
                assert(events_view(v@) =~= notify_events_spec(kind, strings_view(paths@)));
            }
            v
        },
    };
    r
}

/// A native event whose paths cannot be trusted: a rename of unknown mode, or
/// of both paths with fewer than two.
pub open spec fn uncertain_rename_spec(kind: NotifyEventKind, path_count: nat) -> bool {
    ||| kind == NotifyEventKind::Rename(NotifyRenameMode::Any)
    ||| kind == NotifyEventKind::Rename(NotifyRenameMode::Other)
    ||| (kind == NotifyEventKind::Rename(NotifyRenameMode::Both) && path_count < 2)
}

/// Whether a native event must fall back to recalibrating its roots instead of
/// queuing its paths: the backend asked for a rescan or the rename is uncertain.
pub fn needs_rescan_fallback(kind: NotifyEventKind, path_count: usize, need_rescan: bool) -> (r: bool)
    ensures
        r == (need_rescan || uncertain_rename_spec(kind, path_count as nat)),
{
    need_rescan || match kind {
        NotifyEventKind::Rename(NotifyRenameMode::Any) | NotifyEventKind::Rename(NotifyRenameMode::Other) => true,
        NotifyEventKind::Rename(NotifyRenameMode::Both) => path_count < 2,
        _ => false,
    }
}

/// The deepest of the listed roots; of equally deep ones the last.
pub open spec fn deepest_listed(roots: Seq<Seq<char>>) -> Option<int>
    decreases roots.len(),
{
    if roots.len() == 0 {
        None
    } else {
        let prev = deepest_listed(roots.drop_last());
        let i = roots.len() - 1;
        if (match prev {
            Some(j) => depth_of(roots[j]) <= depth_of(roots[i]),
            None => true,
        }) {
            Some(i)
        } else {
            prev
        }
    }
}

/// The root a native error is charged to: the deepest of its paths' roots, or
/// the empty path when none lies under a root.
pub open spec fn error_root(paths: Seq<Seq<char>>, roots: Seq<Seq<char>>) -> Seq<char> {
    let chosen = paths_roots(paths, roots);
    match deepest_listed(chosen) {
        Some(k) => chosen[k],
        None => Seq::empty(),
    }
}

proof fn lemma_deepest_listed_in_range(roots: Seq<Seq<char>>)
    ensures
        deepest_listed(roots) matches Some(j) ==> 0 <= j < roots.len(),
    decreases roots.len(),
{
    if roots.len() > 0 {
        lemma_deepest_listed_in_range(roots.drop_last());
    }
}

// ---------------------------------------------------------------------------
// Roots of an index
// ---------------------------------------------------------------------------

/// The non-empty roots of the entries, in order.
pub open spec fn entry_roots(entries: Seq<IndexedEntry>) -> Seq<Seq<char>>
    decreases entries.len(),
{
    if entries.len() == 0 {
        Seq::empty()
    } else {
        let rest = entry_roots(entries.drop_last());
        if entries.last().root@.len() > 0 {
            rest.push(entries.last().root@)
        } else {
            rest
        }
    }
}

/// The distinct non-empty roots of the entries, in path order.
pub fn roots_from_entries(entries: &[IndexedEntry]) -> (r: Vec<String>)
    ensures
        sorted_paths(strings_view(r@)),
        strings_view(r@).to_set() == set_add_paths(Set::empty(), entry_roots(entries@)),
{
    let mut set = PathSet::new();
    let mut i: usize = 0;
    proof {
        assert(entries@.take(0) =~= Seq::<IndexedEntry>::empty());
        assert(set.listed().to_set() =~= Set::<Seq<char>>::empty());
    }
    while i < entries.len()
        invariant
            i <= entries@.len(),
            set.listed().to_set() == set_add_paths(Set::empty(), entry_roots(entries@.take(i as int))),
        decreases entries@.len() - i,
    {
        proof {
            assert(entries@.take(i + 1).drop_last() =~= entries@.take(i as int));
            assert(entries@.take(i + 1).last() == entries@[i as int]);
        }
        let ghost rest = entry_roots(entries@.take(i as int));
        if !entries[i].root.as_str().is_empty() {
            set.insert(entries[i].root.clone());
            proof {
                assert(rest.push(entries@[i as int].root@).drop_last() =~= rest);
            }
        }
        i = i + 1;
    }
    proof {
        assert(entries@.take(entries@.len() as int) =~= entries@);
    }
    set.take_all()
}

} // verus!
