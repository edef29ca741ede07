//! Debounce state for runtime index updates: events and dirty roots collect until
//! the stream has been quiet for a while or the oldest has waited too long.
//!
//! Times are monotonic clock readings in milliseconds, durations milliseconds.

use vstd::prelude::*;
use std::sync::Arc;
use std::sync::atomic::{AtomicBool, Ordering};
use crate::index_watcher::{batch_after, IndexEventBatcher, IndexWatchEvent};
use crate::paths::{has_spelling, same_path, set_add_path, set_remove_path, sorted_paths, strings_view, PathSet};

verus! {

broadcast use vstd::string::group_string_axioms;

/// The longest the worker sleeps before it looks at the shutdown flag again.
pub const MAX_SHUTDOWN_POLL_INTERVAL_MS: u64 = 50;

#[derive(Debug, Clone, Copy, PartialEq, Eq, Structural)]
pub struct CoordinatorPolicy {
    quiet_window: u64,
    max_latency: u64,
}

impl CoordinatorPolicy {
    pub closed spec fn quiet_spec(self) -> u64 {
        self.quiet_window
    }

    pub closed spec fn max_latency_spec(self) -> u64 {
        self.max_latency
    }

    pub fn new(quiet_window: u64, max_latency: u64) -> (r: Self)
        ensures
            r.quiet_spec() == quiet_window,
            r.max_latency_spec() == max_latency,
    {
        CoordinatorPolicy { quiet_window, max_latency }
    }

    /// Five seconds of quiet, at most ten seconds of latency.
    pub fn production() -> (r: Self)
        ensures
            r.quiet_spec() == 5000,
            r.max_latency_spec() == 10000,
    {
        Self::new(5000, 10000)
    }

    pub fn quiet_window(self) -> (r: u64)
        ensures
            r == self.quiet_spec(),
    {
        self.quiet_window
    }

    pub fn max_latency(self) -> (r: u64)
        ensures
            r == self.max_latency_spec(),
    {
        self.max_latency
    }
}

#[derive(Debug, Clone, PartialEq, Eq, Default)]
pub struct CoordinatorBatch {
    pub changed_paths: Vec<String>,
    pub removed_paths: Vec<String>,
    pub dirty_roots: Vec<String>,
}

/// `a + b`, or `u64::MAX` where that does not fit.
pub open spec fn sat_add(a: u64, b: u64) -> u64 {
    if a + b > u64::MAX {
        u64::MAX
    } else {
        (a + b) as u64
    }
}

/// When the pending work is due: the earlier of the quiet deadline after the
/// newest observation and the latency deadline after the oldest.
pub open spec fn deadline_spec(first: Option<u64>, last: Option<u64>, policy: CoordinatorPolicy) -> Option<u64> {
    match (first, last) {
        (Some(f), Some(l)) => {
            let quiet = sat_add(l, policy.quiet_spec());
            let latest = sat_add(f, policy.max_latency_spec());
            Some(if quiet <= latest { quiet } else { latest })
        },
        _ => None,
    }
}

/// Law: pending work is due no later than the latency limit after its oldest
/// observation, and no later than the quiet window after its newest.
pub proof fn lemma_deadline_bounded_by_latency(first: u64, last: u64, policy: CoordinatorPolicy)
    ensures
        deadline_spec(Some(first), Some(last), policy) matches Some(d) && d <= sat_add(first, policy.max_latency_spec())
            && d <= sat_add(last, policy.quiet_spec()),
{
}

/// The earliest and latest of a series of observations, each folded in as
/// `push_event` and `mark_dirty_root` fold one in.
pub open spec fn observe_all(times: Seq<u64>) -> (Option<u64>, Option<u64>)
    decreases times.len(),
{
    if times.len() == 0 {
        (None, None)
    } else {
        let prev = observe_all(times.drop_last());
        CoordinatorState::observed(prev.0, prev.1, times.last())
    }
}

/// Law: after a series of observations the coordinator keeps their minimum and
/// maximum, so its deadline is the earlier of the quiet window after the
/// latest and the latency limit after the earliest; with none, nothing is due.
pub proof fn lemma_deadline_follows_observations(times: Seq<u64>, policy: CoordinatorPolicy)
    ensures
        times.len() == 0 ==> observe_all(times) == (None::<u64>, None::<u64>),
        times.len() > 0 ==> ({
            let (f, l) = observe_all(times);
            &&& f is Some
            &&& l is Some
            &&& times.contains(f->0) && times.contains(l->0)
            &&& forall|i: int| 0 <= i < times.len() ==> f->0 <= #[trigger] times[i] <= l->0
            &&& deadline_spec(f, l, policy) == Some(
                if sat_add(l->0, policy.quiet_spec()) <= sat_add(f->0, policy.max_latency_spec()) {
                    sat_add(l->0, policy.quiet_spec())
                } else {
                    sat_add(f->0, policy.max_latency_spec())
                },
            )
        }),
    decreases times.len(),
{
    if times.len() > 0 {
        let rest = times.drop_last();
        lemma_deadline_follows_observations(rest, policy);
        let t = times.last();
        assert(times[times.len() - 1] == t);
        if rest.len() > 0 {
            let (f0, l0) = observe_all(rest);
            let k = choose|k: int| 0 <= k < rest.len() && rest[k] == f0->0;
            assert(times[k] == f0->0);
            let m = choose|m: int| 0 <= m < rest.len() && rest[m] == l0->0;
            assert(times[m] == l0->0);
            assert forall|i: int| 0 <= i < times.len() implies observe_all(times).0->0 <= #[trigger] times[i]
                <= observe_all(times).1->0 by {
                if i < times.len() - 1 {
                    assert(times[i] == rest[i]);
                }
            }
        } else {
            assert forall|i: int| 0 <= i < times.len() implies observe_all(times).0->0 <= #[trigger] times[i]
                <= observe_all(times).1->0 by {
                assert(i == 0);
            }
        }
    }
}

/// What the coordinator collects between drains: a watch event, or a root
/// marked dirty.
#[derive(Debug, Clone)]
pub enum CoordinatorInput {
    Event(IndexWatchEvent),
    DirtyRoot(String),
}

/// The changed paths, removed paths and dirty roots that a run of inputs
/// leaves, starting from nothing.
pub open spec fn accumulated(inputs: Seq<CoordinatorInput>) -> (Set<Seq<char>>, Set<Seq<char>>, Set<Seq<char>>)
    decreases inputs.len(),
{
    if inputs.len() == 0 {
        (Set::empty(), Set::empty(), Set::empty())
    } else {
        let (c, r, d) = accumulated(inputs.drop_last());
        match inputs.last() {
            CoordinatorInput::Event(e) => {
                let (c2, r2) = batch_after(c, r, e);
                (c2, r2, d)
            },
            CoordinatorInput::DirtyRoot(root) => (c, r, set_add_path(d, root@)),
        }
    }
}

/// What an event says of the path `q`: changed (`true`), removed (`false`),
/// or nothing. A rename changes its target and removes its source.
pub open spec fn event_effect(event: IndexWatchEvent, q: Seq<char>) -> Option<bool> {
    match event {
        IndexWatchEvent::Create(p) => if same_path(p@, q) { Some(true) } else { None },
        IndexWatchEvent::Write(p) => if same_path(p@, q) { Some(true) } else { None },
        IndexWatchEvent::Remove(p) => if same_path(p@, q) { Some(false) } else { None },
        IndexWatchEvent::Rename { from, to } => if same_path(to@, q) {
            Some(true)
        } else if same_path(from@, q) {
            Some(false)
        } else {
            None
        },
    }
}

/// What the last event of the run that concerns `q` says of it.
pub open spec fn last_effect(inputs: Seq<CoordinatorInput>, q: Seq<char>) -> Option<bool>
    decreases inputs.len(),
{
    if inputs.len() == 0 {
        None
    } else {
        match inputs.last() {
            CoordinatorInput::Event(e) => match event_effect(e, q) {
                Some(b) => Some(b),
                None => last_effect(inputs.drop_last(), q),
            },
            CoordinatorInput::DirtyRoot(_) => last_effect(inputs.drop_last(), q),
        }
    }
}

/// The input marks a spelling of `q` dirty.
pub open spec fn marks_dirty(input: CoordinatorInput, q: Seq<char>) -> bool {
    match input {
        CoordinatorInput::DirtyRoot(root) => same_path(root@, q),
        CoordinatorInput::Event(_) => false,
    }
}

/// Some input of the run marks a spelling of `q` dirty.
pub open spec fn marked_dirty(inputs: Seq<CoordinatorInput>, q: Seq<char>) -> bool {
    exists|i: int| 0 <= i < inputs.len() && marks_dirty(#[trigger] inputs[i], q)
}

/// Law: between two drains, a path is changed exactly when the last event
/// that concerns it created, wrote or renamed something to it, removed
/// exactly when that event removed it or renamed it away, and a root is dirty
/// exactly when it was marked so.
pub proof fn lemma_accumulated_follows_last_events(inputs: Seq<CoordinatorInput>, q: Seq<char>)
    ensures
        has_spelling(accumulated(inputs).0, q) <==> last_effect(inputs, q) == Some(true),
        has_spelling(accumulated(inputs).1, q) <==> last_effect(inputs, q) == Some(false),
        has_spelling(accumulated(inputs).2, q) <==> marked_dirty(inputs, q),
    decreases inputs.len(),
{
    if inputs.len() > 0 {
        let rest = inputs.drop_last();
        lemma_accumulated_follows_last_events(rest, q);
        let (c, r, d) = accumulated(rest);
        let (c2, r2, d2) = accumulated(inputs);
        assert(forall|i: int| 0 <= i < rest.len() ==> rest[i] == inputs[i]);
        match inputs.last() {
            CoordinatorInput::Event(e) => {
                lemma_event_moves_its_paths(c, r, e, q);
                assert(d2 == d);
                assert(marked_dirty(inputs, q) == marked_dirty(rest, q)) by {
                    if marked_dirty(inputs, q) {
                        let i = choose|i: int| 0 <= i < inputs.len() && marks_dirty(#[trigger] inputs[i], q);
                        assert(i < rest.len());
                        assert(rest[i] == inputs[i]);
                    }
                    if marked_dirty(rest, q) {
                        let i = choose|i: int| 0 <= i < rest.len() && marks_dirty(#[trigger] rest[i], q);
                        assert(inputs[i] == rest[i]);
                    }
                }
            },
            CoordinatorInput::DirtyRoot(root) => {
                assert(c2 == c && r2 == r);
                assert(has_spelling(d2, q) <==> has_spelling(d, q) || same_path(root@, q)) by {
                    if has_spelling(d2, q) && !has_spelling(d, q) {
                        let x = choose|x: Seq<char>| #[trigger] d2.contains(x) && same_path(x, q);
                        assert(x == root@);
                    }
                    if same_path(root@, q) && !has_spelling(d, q) {
                        assert(d2.contains(root@));
                    }
                    if has_spelling(d, q) {
                        let x = choose|x: Seq<char>| #[trigger] d.contains(x) && same_path(x, q);
                        assert(d2.contains(x));
                    }
                }
                assert(marked_dirty(inputs, q) == (marked_dirty(rest, q) || same_path(root@, q))) by {
                    if marked_dirty(inputs, q) {
                        let i = choose|i: int| 0 <= i < inputs.len() && marks_dirty(#[trigger] inputs[i], q);
                        if i < rest.len() {
                            assert(rest[i] == inputs[i]);
                        }
                    }
                    if marked_dirty(rest, q) {
                        let i = choose|i: int| 0 <= i < rest.len() && marks_dirty(#[trigger] rest[i], q);
                        assert(inputs[i] == rest[i]);
                    }
                    if same_path(root@, q) {
                        assert(marks_dirty(inputs[inputs.len() - 1], q));
                    }
                }
            },
        }
    }
}

/// Law: one watch event puts a path it concerns among the changed or the
/// removed paths, as its effect says, and out of the other set; every other
/// path stays where it was.
pub proof fn lemma_event_moves_its_paths(changed: Set<Seq<char>>, removed: Set<Seq<char>>, event: IndexWatchEvent, q: Seq<char>)
    ensures
        ({
            let (c2, r2) = batch_after(changed, removed, event);
            match event_effect(event, q) {
                Some(b) => has_spelling(c2, q) == b && has_spelling(r2, q) == !b,
                None => has_spelling(c2, q) == has_spelling(changed, q) && has_spelling(r2, q) == has_spelling(removed, q),
            }
        }),
{
    let (c2, r2) = batch_after(changed, removed, event);
    match event {
        IndexWatchEvent::Create(p) => {
            lemma_path_spelling_moves(changed, p@, q);
            lemma_path_spelling_moves(removed, p@, q);
        },
        IndexWatchEvent::Write(p) => {
            lemma_path_spelling_moves(changed, p@, q);
            lemma_path_spelling_moves(removed, p@, q);
        },
        IndexWatchEvent::Remove(p) => {
            lemma_path_spelling_moves(changed, p@, q);
            lemma_path_spelling_moves(removed, p@, q);
        },
        IndexWatchEvent::Rename { from, to } => {
            lemma_path_spelling_moves(changed, from@, q);
            lemma_path_spelling_moves(set_remove_path(changed, from@), to@, q);
            lemma_path_spelling_moves(removed, from@, q);
            lemma_path_spelling_moves(set_add_path(removed, from@), to@, q);
        },
    }
}

/// Adding or removing `p` decides `q`'s spelling when `p` and `q` are the same
/// path, and leaves it otherwise.
proof fn lemma_path_spelling_moves(s: Set<Seq<char>>, p: Seq<char>, q: Seq<char>)
    ensures
        has_spelling(set_add_path(s, p), q) == (same_path(p, q) || has_spelling(s, q)),
        has_spelling(set_remove_path(s, p), q) == (!same_path(p, q) && has_spelling(s, q)),
{
    let a = set_add_path(s, p);
    let rm = set_remove_path(s, p);
    if has_spelling(a, q) && !same_path(p, q) {
        let x = choose|x: Seq<char>| #[trigger] a.contains(x) && same_path(x, q);
        if !s.contains(x) {
            assert(x == p);
        }
    }
    if same_path(p, q) {
        if has_spelling(s, p) {
            let x = choose|x: Seq<char>| #[trigger] s.contains(x) && same_path(x, p);
            assert(a.contains(x));
        } else {
            assert(a.contains(p));
        }
    }
    if has_spelling(s, q) {
        let x = choose|x: Seq<char>| #[trigger] s.contains(x) && same_path(x, q);
        assert(a.contains(x));
        if !same_path(p, q) {
            assert(rm.contains(x));
        }
    }
    if has_spelling(rm, q) {
        let x = choose|x: Seq<char>| #[trigger] rm.contains(x) && same_path(x, q);
        assert(s.contains(x));
    }
}

pub struct CoordinatorState {
    policy: CoordinatorPolicy,
    events: IndexEventBatcher,
    dirty_roots: PathSet,
    first_event_at: Option<u64>,
    last_event_at: Option<u64>,
    since_drain: Ghost<Seq<CoordinatorInput>>,
}

impl CoordinatorState {
    /// The changed paths, removed paths and dirty roots are what the inputs
    /// since the last drain accumulate.
    #[verifier::type_invariant]
    spec fn tracks_inputs(&self) -> bool {
        accumulated(self.since_drain@) == (
            self.events.changed_listed().to_set(),
            self.events.removed_listed().to_set(),
            self.dirty_roots.listed().to_set(),
        )
    }

    /// The inputs since construction or the last drain, oldest first.
    pub closed spec fn inputs(&self) -> Seq<CoordinatorInput> {
        self.since_drain@
    }

    pub closed spec fn policy_spec(&self) -> CoordinatorPolicy {
        self.policy
    }

    pub closed spec fn events_spec(&self) -> IndexEventBatcher {
        self.events
    }

    /// The dirty roots, in path order.
    pub closed spec fn dirty_listed(&self) -> Seq<Seq<char>> {
        self.dirty_roots.listed()
    }

    /// The earliest and the latest observation since the last drain.
    pub closed spec fn first_spec(&self) -> Option<u64> {
        self.first_event_at
    }

    pub closed spec fn last_spec(&self) -> Option<u64> {
        self.last_event_at
    }

    /// When the pending work is due, if anything was observed.
    pub open spec fn deadline(&self) -> Option<u64> {
        deadline_spec(self.first_spec(), self.last_spec(), self.policy_spec())
    }

    pub fn new(policy: CoordinatorPolicy) -> (r: Self)
        ensures
            r.policy_spec() == policy,
            r.events_spec().changed_listed() == Seq::<Seq<char>>::empty(),
            r.events_spec().removed_listed() == Seq::<Seq<char>>::empty(),
            r.dirty_listed() == Seq::<Seq<char>>::empty(),
            r.first_spec().is_none(),
            r.last_spec().is_none(),
            r.inputs() == Seq::<CoordinatorInput>::empty(),
    {
        let events = IndexEventBatcher::default();
        let dirty_roots = PathSet::new();
        assert(events.changed_listed().to_set() =~= Set::<Seq<char>>::empty());
        assert(events.removed_listed().to_set() =~= Set::<Seq<char>>::empty());
        assert(dirty_roots.listed().to_set() =~= Set::<Seq<char>>::empty());
        CoordinatorState {
            policy,
            events,
            dirty_roots,
            first_event_at: None,
            last_event_at: None,
            since_drain: Ghost(Seq::empty()),
        }
    }

    /// The earliest and latest observation times after one more at `t`.
    pub open spec fn observed(first: Option<u64>, last: Option<u64>, t: u64) -> (Option<u64>, Option<u64>) {
        (
            Some(match first {
                Some(f) => if f <= t { f } else { t },
                None => t,
            }),
            Some(match last {
                Some(l) => if l >= t { l } else { t },
                None => t,
            }),
        )
    }

    fn observe(&mut self, observed_at: u64)
        ensures
            (final(self).first_spec(), final(self).last_spec()) == Self::observed(
                old(self).first_spec(),
                old(self).last_spec(),
                observed_at,
            ),
            final(self).policy_spec() == old(self).policy_spec(),
            final(self).events_spec() == old(self).events_spec(),
            final(self).dirty_listed() == old(self).dirty_listed(),
            final(self).inputs() == old(self).inputs(),
    {
        proof {
            use_type_invariant(&*self);
        }
        self.first_event_at = Some(
            match self.first_event_at {
                Some(f) => if f <= observed_at {
                    f
                } else {
                    observed_at
                },
                None => observed_at,
            },
        );
        self.last_event_at = Some(
            match self.last_event_at {
                Some(l) => if l >= observed_at {
                    l
                } else {
                    observed_at
                },
                None => observed_at,
            },
        );
    }

    pub fn push_event(&mut self, event: IndexWatchEvent, observed_at: u64)
        ensures
            (final(self).events_spec().changed_listed().to_set(), final(self).events_spec().removed_listed().to_set())
                == batch_after(
                old(self).events_spec().changed_listed().to_set(),
                old(self).events_spec().removed_listed().to_set(),
                event,
            ),
            (final(self).first_spec(), final(self).last_spec()) == Self::observed(
                old(self).first_spec(),
                old(self).last_spec(),
                observed_at,
            ),
            final(self).policy_spec() == old(self).policy_spec(),
            final(self).dirty_listed() == old(self).dirty_listed(),
            final(self).inputs() == old(self).inputs().push(CoordinatorInput::Event(event)),
    {
        proof {
            use_type_invariant(&*self);
        }
        let ghost e = event;
        let mut taken = CoordinatorState::new(self.policy);
        std::mem::swap(&mut taken, self);
        let CoordinatorState { policy, mut events, dirty_roots, first_event_at, last_event_at, since_drain } = taken;
        events.push(event);
        let ghost inputs = since_drain@.push(CoordinatorInput::Event(e));
        proof {
            assert(inputs.drop_last() =~= since_drain@);
        }
        *self = CoordinatorState {
            policy,
            events,
            dirty_roots,
            first_event_at,
            last_event_at,
            since_drain: Ghost(inputs),
        };
        self.observe(observed_at);
    }

    pub fn mark_dirty_root(&mut self, root: String, observed_at: u64)
        ensures
            final(self).dirty_listed().to_set() == set_add_path(old(self).dirty_listed().to_set(), root@),
            (final(self).first_spec(), final(self).last_spec()) == Self::observed(
                old(self).first_spec(),
                old(self).last_spec(),
                observed_at,
            ),
            final(self).policy_spec() == old(self).policy_spec(),
            final(self).events_spec() == old(self).events_spec(),
            final(self).inputs() == old(self).inputs().push(CoordinatorInput::DirtyRoot(root)),
    {
        proof {
            use_type_invariant(&*self);
        }
        let ghost r0 = root;
        let mut taken = CoordinatorState::new(self.policy);
        std::mem::swap(&mut taken, self);
        let CoordinatorState { policy, events, mut dirty_roots, first_event_at, last_event_at, since_drain } = taken;
        dirty_roots.insert(root);
        let ghost inputs = since_drain@.push(CoordinatorInput::DirtyRoot(r0));
        proof {
            assert(inputs.drop_last() =~= since_drain@);
        }
        *self = CoordinatorState {
            policy,
            events,
            dirty_roots,
            first_event_at,
            last_event_at,
            since_drain: Ghost(inputs),
        };
        self.observe(observed_at);
    }

    fn next_deadline(&self) -> (r: Option<u64>)
        ensures
            r == self.deadline(),
    {
        match (self.first_event_at, self.last_event_at) {
            (Some(first), Some(last)) => {
                let quiet = last.saturating_add(self.policy.quiet_window);
                let latest = first.saturating_add(self.policy.max_latency);
                Some(if quiet <= latest { quiet } else { latest })
            },
            _ => None,
        }
    }

    /// Whether the pending work is due at `now`.
    pub fn should_drain(&self, now: u64) -> (r: bool)
        ensures
            r == (match self.deadline() {
                Some(d) => now >= d,
                None => false,
            }),
    {
        match self.next_deadline() {
            Some(deadline) => now >= deadline,
            None => false,
        }
    }

    /// How long to sleep: until the deadline, never more than the shutdown poll
    /// interval, which is also the wait when nothing is pending.
    pub fn next_wait(&self, now: u64) -> (r: u64)
        ensures
            r == (match self.deadline() {
                Some(d) => {
                    let until = if d >= now { d - now } else { 0 };
                    if until <= MAX_SHUTDOWN_POLL_INTERVAL_MS { until } else { MAX_SHUTDOWN_POLL_INTERVAL_MS as int }
                },
                None => MAX_SHUTDOWN_POLL_INTERVAL_MS as int,
            }),
            r <= MAX_SHUTDOWN_POLL_INTERVAL_MS,
    {
        match self.next_deadline() {
            Some(deadline) => {
                let until = if deadline >= now { deadline - now } else { 0 };
                if until <= MAX_SHUTDOWN_POLL_INTERVAL_MS { until } else { MAX_SHUTDOWN_POLL_INTERVAL_MS }
            },
            None => MAX_SHUTDOWN_POLL_INTERVAL_MS,
        }
    }

    /// Hands out the pending paths and dirty roots, each in path order, and
    /// starts over.
    pub fn drain(&mut self) -> (r: CoordinatorBatch)
        ensures
            strings_view(r.changed_paths@) == old(self).events_spec().changed_listed(),
            strings_view(r.removed_paths@) == old(self).events_spec().removed_listed(),
            strings_view(r.dirty_roots@) == old(self).dirty_listed(),
            sorted_paths(strings_view(r.changed_paths@)),
            sorted_paths(strings_view(r.removed_paths@)),
            sorted_paths(strings_view(r.dirty_roots@)),
            final(self).events_spec().changed_listed() == Seq::<Seq<char>>::empty(),
            final(self).events_spec().removed_listed() == Seq::<Seq<char>>::empty(),
            final(self).dirty_listed() == Seq::<Seq<char>>::empty(),
            final(self).first_spec().is_none(),
            final(self).last_spec().is_none(),
            final(self).policy_spec() == old(self).policy_spec(),
            (strings_view(r.changed_paths@).to_set(), strings_view(r.removed_paths@).to_set(), strings_view(
                r.dirty_roots@,
            ).to_set()) == accumulated(old(self).inputs()),
            final(self).inputs() == Seq::<CoordinatorInput>::empty(),
    {
        proof {
            use_type_invariant(&*self);
        }
        let mut taken = CoordinatorState::new(self.policy);
        std::mem::swap(&mut taken, self);
        let CoordinatorState { policy, mut events, mut dirty_roots, first_event_at, last_event_at, since_drain } = taken;
        let event_batch = events.drain_batch();
        let dirty = dirty_roots.take_all();
        proof {
            assert(events.changed_listed().to_set() =~= Set::<Seq<char>>::empty());
            assert(events.removed_listed().to_set() =~= Set::<Seq<char>>::empty());
            assert(dirty_roots.listed().to_set() =~= Set::<Seq<char>>::empty());
        }
        *self = CoordinatorState {
            policy,
            events,
            dirty_roots,
            first_event_at: None,
            last_event_at: None,
            since_drain: Ghost(Seq::empty()),
        };
        CoordinatorBatch {
            changed_paths: event_batch.changed_paths,
            removed_paths: event_batch.removed_paths,
            dirty_roots: dirty,
        }
    }

    pub fn is_empty(&self) -> (r: bool)
        ensures
            r == (self.events_spec().changed_listed().len() == 0 && self.events_spec().removed_listed().len() == 0
                && self.dirty_listed().len() == 0),
    {
        self.events.is_empty() && self.dirty_roots.is_empty()
    }

    /// The number of pending paths, saturating at `usize::MAX`.
    pub fn pending_event_count(&self) -> (r: usize)
        ensures
            r == (if self.events_spec().changed_listed().len() + self.events_spec().removed_listed().len()
                > usize::MAX {
                usize::MAX as int
            } else {
                (self.events_spec().changed_listed().len() + self.events_spec().removed_listed().len()) as int
            }),
    {
        self.events.len()
    }

    pub fn dirty_root_count(&self) -> (r: usize)
        ensures
            r == self.dirty_listed().len(),
    {
        self.dirty_roots.len()
    }
}

/// A shutdown flag shared between the coordinator's owner and its worker.
#[derive(Debug, Clone, Default)]
pub struct CoordinatorShutdown {
    requested: Arc<AtomicBool>,
}

impl CoordinatorShutdown {
    pub fn request(&self) {
        self.requested.store(true, Ordering::Release);
    }

    /// Whether shutdown was requested; another handle may set the flag at any
    /// time, so nothing is promised of the answer.
    pub fn is_requested(&self) -> bool {
        self.requested.load(Ordering::Acquire)
    }
}

} // verus!
