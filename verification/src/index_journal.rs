//! Replaying the committed deltas of the incremental-index journal.

use vstd::prelude::*;
use crate::index_entry::{
    normalize_path_text_key_for_mode, path_key_spec, IndexDegradationCode, IndexedEntry, PathComparisonMode,
};
use crate::paths::{components_of, comps_equal, comps_view, path_components, same_path};
use crate::layered_index::{
    entry_keys, overlay_in_key_order, removal_keys, tail_applied, CommittedIndexDelta, LayeredSearchIndex, StrSet,
};
use crate::compact_index::candidate_build_fits;
use crate::text::{chars_of, string_from_chars};

verus! {

/// Why recovery did not replay the journal onto the baseline.
#[derive(Debug, Clone, Copy, PartialEq, Eq, Structural)]
pub enum IndexFallbackReason {
    JournalRecoveryFailed,
    FullRefreshFallback,
}

// ---------------------------------------------------------------------------
// Well-formed deltas
// ---------------------------------------------------------------------------

/// The path keys a delta touches: those of its upserts, then those of its
/// removals.
pub open spec fn delta_keys(delta: CommittedIndexDelta, mode: PathComparisonMode) -> Seq<Seq<char>> {
    entry_keys(delta.upserts@, mode) + removal_keys(delta.removals@, mode)
}

/// No touched key is empty and no key is touched twice.
pub open spec fn delta_well_formed(delta: CommittedIndexDelta, mode: PathComparisonMode) -> bool {
    &&& forall|i: int| 0 <= i < delta_keys(delta, mode).len() ==> (#[trigger] delta_keys(delta, mode)[i]).len() > 0
    &&& delta_keys(delta, mode).no_duplicates()
}

/// Whether `delta` is well formed, its keys taken by `mode`.
fn validate_delta(delta: &CommittedIndexDelta, mode: PathComparisonMode) -> (r: bool)
    ensures
        r == delta_well_formed(*delta, mode),
{
    let ghost keys = delta_keys(*delta, mode);
    let ghost n = delta.upserts@.len();
    let mut seen = StrSet::new();
    let mut i: usize = 0;
    proof {
        assert(keys.take(0) =~= Seq::<Seq<char>>::empty());
    }
    while i < delta.upserts.len()
        invariant
            i <= n,
            n == delta.upserts@.len(),
            keys == delta_keys(*delta, mode),
            keys.len() == n + delta.removals@.len(),
            seen.members() == keys.take(i as int).to_set(),
            forall|a: int| 0 <= a < i ==> (#[trigger] keys[a]).len() > 0,
            keys.take(i as int).no_duplicates(),
        decreases n - i,
    {
        let key = normalize_path_text_key_for_mode(delta.upserts[i].path.as_str(), mode);
        assert(key@ == keys[i as int]);
        if key.as_str().is_empty() {
            return false;
        }
        let fresh = seen.insert(key);
        if !fresh {
            proof {
                let a = choose|a: int| 0 <= a < i && keys.take(i as int)[a] == keys[i as int];
                assert(keys[a] == keys[i as int]);
            }
            return false;
        }
        proof {
            let t = keys.take(i + 1);
            assert(t =~= keys.take(i as int).push(keys[i as int]));
            keys.take(i as int).lemma_push_to_set_commute(keys[i as int]);
            assert(t.to_set() =~= keys.take(i as int).to_set().insert(keys[i as int]));
            assert forall|a: int, b: int| 0 <= a < t.len() && 0 <= b < t.len() && a != b implies t[a] != t[b] by {
                if a < i && b < i {
                    assert(keys.take(i as int)[a] == t[a]);
                    assert(keys.take(i as int)[b] == t[b]);
                } else if a == i {
                    assert(keys.take(i as int)[b] == t[b]);
                    assert(keys.take(i as int).to_set().contains(t[b]));
                } else {
                    assert(keys.take(i as int)[a] == t[a]);
                    assert(keys.take(i as int).to_set().contains(t[a]));
                }
            }
        }
        i = i + 1;
    }
    let mut j: usize = 0;
    while j < delta.removals.len()
        invariant
            j <= delta.removals@.len(),
            n == delta.upserts@.len(),
            keys == delta_keys(*delta, mode),
            keys.len() == n + delta.removals@.len(),
            seen.members() == keys.take(n + j).to_set(),
            forall|a: int| 0 <= a < n + j ==> (#[trigger] keys[a]).len() > 0,
            keys.take(n + j).no_duplicates(),
        decreases delta.removals@.len() - j,
    {
        let key = normalize_path_text_key_for_mode(delta.removals[j].as_str(), mode);
        let ghost at = n + j;
        assert(key@ == keys[at]);
        if key.as_str().is_empty() {
            return false;
        }
        let fresh = seen.insert(key);
        if !fresh {
            proof {
                let a = choose|a: int| 0 <= a < at && keys.take(at)[a] == keys[at];
                assert(keys[a] == keys[at]);
            }
            return false;
        }
        proof {
            let t = keys.take(at + 1);
            assert(t =~= keys.take(at).push(keys[at]));
            keys.take(at).lemma_push_to_set_commute(keys[at]);
            assert(t.to_set() =~= keys.take(at).to_set().insert(keys[at]));
            assert forall|a: int, b: int| 0 <= a < t.len() && 0 <= b < t.len() && a != b implies t[a] != t[b] by {
                if a < at && b < at {
                    assert(keys.take(at)[a] == t[a]);
                    assert(keys.take(at)[b] == t[b]);
                } else if a == at {
                    assert(keys.take(at)[b] == t[b]);
                    assert(keys.take(at).to_set().contains(t[b]));
                } else {
                    assert(keys.take(at)[a] == t[a]);
                    assert(keys.take(at).to_set().contains(t[a]));
                }
            }
        }
        j = j + 1;
    }
    proof {
        assert(keys.take(keys.len() as int) =~= keys);
    }
    true
}

// ---------------------------------------------------------------------------
// Equal deltas
// ---------------------------------------------------------------------------

/// Both absent, or both present with the same text.
pub open spec fn same_optional_text(a: Option<String>, b: Option<String>) -> bool {
    match (a, b) {
        (None, None) => true,
        (Some(x), Some(y)) => x@ == y@,
        _ => false,
    }
}

/// The entries agree field by field.
pub open spec fn same_entry(a: IndexedEntry, b: IndexedEntry) -> bool {
    &&& a.path@ == b.path@
    &&& a.name@ == b.name@
    &&& a.kind == b.kind
    &&& a.parent@ == b.parent@
    &&& same_optional_text(a.extension, b.extension)
    &&& a.depth == b.depth
    &&& a.root@ == b.root@
    &&& a.modified_ms == b.modified_ms
    &&& a.size_bytes == b.size_bytes
    &&& a.search_text@ == b.search_text@
    &&& a.content_index_state == b.content_index_state
}

/// The deltas agree: same generation, same upserts and same removals, in order.
pub open spec fn same_delta(a: CommittedIndexDelta, b: CommittedIndexDelta) -> bool {
    &&& a.generation == b.generation
    &&& a.upserts@.len() == b.upserts@.len()
    &&& forall|i: int| 0 <= i < a.upserts@.len() ==> same_entry(#[trigger] a.upserts@[i], b.upserts@[i])
    &&& a.removals@.len() == b.removals@.len()
    &&& forall|i: int| 0 <= i < a.removals@.len() ==> (#[trigger] a.removals@[i])@ == b.removals@[i]@
}

fn same_optional_text_exec(a: &Option<String>, b: &Option<String>) -> (r: bool)
    ensures
        r == same_optional_text(*a, *b),
{
    match (a, b) {
        (None, None) => true,
        (Some(x), Some(y)) => *x == *y,
        _ => false,
    }
}

fn entries_match(a: &IndexedEntry, b: &IndexedEntry) -> (r: bool)
    ensures
        r == same_entry(*a, *b),
{
    a.path == b.path && a.name == b.name && a.kind == b.kind && a.parent == b.parent && same_optional_text_exec(
        &a.extension,
        &b.extension,
    ) && a.depth == b.depth && a.root == b.root && a.modified_ms == b.modified_ms && a.size_bytes == b.size_bytes
        && a.search_text == b.search_text && a.content_index_state == b.content_index_state
}

fn deltas_match(a: &CommittedIndexDelta, b: &CommittedIndexDelta) -> (r: bool)
    ensures
        r == same_delta(*a, *b),
{
    if a.generation != b.generation || a.upserts.len() != b.upserts.len() || a.removals.len() != b.removals.len() {
        return false;
    }
    let mut i: usize = 0;
    while i < a.upserts.len()
        invariant
            i <= a.upserts@.len(),
            a.upserts@.len() == b.upserts@.len(),
            forall|k: int| 0 <= k < i ==> same_entry(#[trigger] a.upserts@[k], b.upserts@[k]),
        decreases a.upserts@.len() - i,
    {
        if !entries_match(&a.upserts[i], &b.upserts[i]) {
            return false;
        }
        i = i + 1;
    }
    let mut j: usize = 0;
    while j < a.removals.len()
        invariant
            j <= a.removals@.len(),
            a.removals@.len() == b.removals@.len(),
            forall|k: int| 0 <= k < j ==> (#[trigger] a.removals@[k])@ == b.removals@[k]@,
        decreases a.removals@.len() - j,
    {
        if a.removals[j] != b.removals[j] {
            return false;
        }
        j = j + 1;
    }
    true
}

// ---------------------------------------------------------------------------
// Messages
// ---------------------------------------------------------------------------

/// The decimal digit for `d < 10`.
pub open spec fn digit_char(d: nat) -> char {
    if d == 0 {
        '0'
    } else if d == 1 {
        '1'
    } else if d == 2 {
        '2'
    } else if d == 3 {
        '3'
    } else if d == 4 {
        '4'
    } else if d == 5 {
        '5'
    } else if d == 6 {
        '6'
    } else if d == 7 {
        '7'
    } else if d == 8 {
        '8'
    } else {
        '9'
    }
}

/// The decimal spelling of `n`, without leading zeros.
pub open spec fn decimal(n: nat) -> Seq<char>
    decreases n,
{
    if n < 10 {
        seq![digit_char(n)]
    } else {
        decimal(n / 10).push(digit_char(n % 10))
    }
}

fn digit_of(d: u64) -> (c: char)
    requires
        d < 10,
    ensures
        c == digit_char(d as nat),
{
    if d == 0 {
        '0'
    } else if d == 1 {
        '1'
    } else if d == 2 {
        '2'
    } else if d == 3 {
        '3'
    } else if d == 4 {
        '4'
    } else if d == 5 {
        '5'
    } else if d == 6 {
        '6'
    } else if d == 7 {
        '7'
    } else if d == 8 {
        '8'
    } else {
        '9'
    }
}

/// `n` spelled in decimal.
pub fn decimal_chars(n: u64) -> (r: Vec<char>)
    ensures
        r@ == decimal(n as nat),
    decreases n,
{
    if n < 10 {
        let mut v: Vec<char> = Vec::new();
        v.push(digit_of(n));
        v
    } else {
        let mut v = decimal_chars(n / 10);
        v.push(digit_of(n % 10));
        v
    }
}

/// The message for a delta with an empty or repeated path.
pub open spec fn malformed_delta_text(generation: u64) -> Seq<char> {
    "generation "@ + decimal(generation as nat) + " contains an empty or duplicate path"@
}

/// The message for two different deltas at one generation.
pub open spec fn conflicting_batches_text(generation: u64) -> Seq<char> {
    "generation "@ + decimal(generation as nat) + " has conflicting journal batches"@
}

fn generation_message(generation: u64, conflicting: bool) -> (r: String)
    ensures
        r@ == (if conflicting {
            conflicting_batches_text(generation)
        } else {
            malformed_delta_text(generation)
        }),
{
    let mut text = chars_of("generation ");
    let mut digits = decimal_chars(generation);
    text.append(&mut digits);
    let mut tail = if conflicting {
        chars_of(" has conflicting journal batches")
    } else {
        chars_of(" contains an empty or duplicate path")
    };
    text.append(&mut tail);
    string_from_chars(text.as_slice())
}

// ---------------------------------------------------------------------------
// Ordering the journal
// ---------------------------------------------------------------------------

/// Delta `i` is the first of `deltas` with its generation.
pub open spec fn first_of_generation(deltas: Seq<CommittedIndexDelta>, i: int) -> bool {
    &&& 0 <= i < deltas.len()
    &&& forall|j: int| 0 <= j < i ==> (#[trigger] deltas[j]).generation != deltas[i].generation
}

/// The first fault met walking the journal in order, with the generation of
/// the delta at fault: a malformed delta (`false`), or a delta that differs
/// from the first delta of its generation (`true`).
pub open spec fn journal_fault(deltas: Seq<CommittedIndexDelta>, mode: PathComparisonMode) -> Option<(u64, bool)>
    decreases deltas.len(),
{
    if deltas.len() == 0 {
        None
    } else {
        let prev = deltas.drop_last();
        let d = deltas.last();
        match journal_fault(prev, mode) {
            Some(f) => Some(f),
            None => if !delta_well_formed(d, mode) {
                Some((d.generation, false))
            } else if exists|j: int|
                first_of_generation(prev, j) && #[trigger] prev[j].generation == d.generation && !same_delta(
                    prev[j],
                    d,
                ) {
                Some((d.generation, true))
            } else {
                None
            },
        }
    }
}

/// The message a fault is reported with.
pub open spec fn fault_text(fault: (u64, bool)) -> Seq<char> {
    if fault.1 {
        conflicting_batches_text(fault.0)
    } else {
        malformed_delta_text(fault.0)
    }
}

/// `order` lists the first delta of each generation, by increasing generation.
pub open spec fn generation_order(deltas: Seq<CommittedIndexDelta>, order: Seq<usize>) -> bool {
    &&& forall|a: int| 0 <= a < order.len() ==> first_of_generation(deltas, #[trigger] order[a] as int)
    &&& forall|a: int, b: int|
        0 <= a < b < order.len() ==> deltas[#[trigger] order[a] as int].generation < deltas[#[trigger] order[b] as int].generation
    &&& forall|i: int| #[trigger] first_of_generation(deltas, i) ==> exists|a: int| 0 <= a < order.len() && order[a] == i
}

/// The deltas `order` points at, in its order.
pub open spec fn ordered_deltas(deltas: Seq<CommittedIndexDelta>, order: Seq<usize>) -> Seq<CommittedIndexDelta> {
    Seq::new(order.len(), |a: int| deltas[order[a] as int])
}

proof fn lemma_fault_persists(deltas: Seq<CommittedIndexDelta>, k: int, mode: PathComparisonMode)
    requires
        0 <= k <= deltas.len(),
        journal_fault(deltas.take(k), mode) is Some,
    ensures
        journal_fault(deltas, mode) == journal_fault(deltas.take(k), mode),
    decreases deltas.len() - k,
{
    if k == deltas.len() {
        assert(deltas.take(k) =~= deltas);
    } else {
        assert(deltas.take(k + 1).drop_last() =~= deltas.take(k));
        lemma_fault_persists(deltas, k + 1, mode);
    }
}

proof fn lemma_first_of_generation_exists(ds: Seq<CommittedIndexDelta>, j: int)
    requires
        0 <= j < ds.len(),
    ensures
        exists|j0: int| 0 <= j0 <= j && ds[j0].generation == ds[j].generation && first_of_generation(ds, j0),
    decreases j,
{
    if !first_of_generation(ds, j) {
        let jj = choose|jj: int| 0 <= jj < j && (#[trigger] ds[jj]).generation == ds[j].generation;
        lemma_first_of_generation_exists(ds, jj);
    }
}

/// The first delta of each generation, by increasing generation, unless the
/// journal has a fault.
#[verifier::rlimit(40)]
fn ordered_unique_deltas(deltas: &[CommittedIndexDelta], mode: PathComparisonMode) -> (r: Result<Vec<usize>, String>)
    ensures
        match r {
            Ok(order) => journal_fault(deltas@, mode) is None && generation_order(deltas@, order@),
            Err(m) => journal_fault(deltas@, mode) matches Some(f) && m@ == fault_text(f),
        },
{
    let ghost ds = deltas@;
    let mut order: Vec<usize> = Vec::new();
    let mut i: usize = 0;
    proof {
        assert(ds.take(0) =~= Seq::<CommittedIndexDelta>::empty());
    }
    while i < deltas.len()
        invariant
            ds == deltas@,
            i <= ds.len(),
            journal_fault(ds.take(i as int), mode) is None,
            forall|a: int| 0 <= a < order@.len() ==> (#[trigger] order@[a]) < i && first_of_generation(ds, order@[a] as int),
            forall|a: int, b: int|
                0 <= a < b < order@.len() ==> ds[#[trigger] order@[a] as int].generation < ds[#[trigger] order@[b] as int].generation,
            forall|j: int| 0 <= j < i && #[trigger] first_of_generation(ds, j) ==> exists|a: int| 0 <= a < order@.len() && order@[a] == j,
        decreases ds.len() - i,
    {
        let d = &deltas[i];
        let g = d.generation;
        let ghost prev = ds.take(i as int);
        proof {
            assert(ds.take(i + 1).drop_last() =~= prev);
            assert(ds.take(i + 1).last() == ds[i as int]);
        }
        if !validate_delta(d, mode) {
            proof {
                lemma_fault_persists(ds, i + 1, mode);
            }
            return Err(generation_message(g, false));
        }
        let mut p: usize = 0;
        while p < order.len() && deltas[order[p]].generation < g
            invariant
                p <= order@.len(),
                forall|a: int| 0 <= a < order@.len() ==> (#[trigger] order@[a]) < ds.len(),
                forall|a: int| 0 <= a < p ==> ds[#[trigger] order@[a] as int].generation < g,
                ds == deltas@,
            decreases order@.len() - p,
        {
            p = p + 1;
        }
        if p < order.len() && deltas[order[p]].generation == g {
            let f = order[p];
            if !deltas_match(&deltas[f], d) {
                proof {
                    assert(prev[f as int] == ds[f as int]);
                    assert forall|j: int| 0 <= j < f implies (#[trigger] prev[j]).generation != prev[f as int].generation by {
                        assert(prev[j] == ds[j]);
                    }
                    assert(first_of_generation(prev, f as int));
                    lemma_fault_persists(ds, i + 1, mode);
                }
                return Err(generation_message(g, true));
            }
            proof {
                assert forall|j: int| first_of_generation(prev, j) && #[trigger] prev[j].generation == g implies same_delta(
                    prev[j],
                    ds[i as int],
                ) by {
                    assert(prev[j] == ds[j]);
                    if j < f {
                        assert(prev[j] == ds[j]);
                        assert(ds[f as int].generation != ds[j].generation);
                    } else if j > f {
                        assert(prev[f as int] == ds[f as int]);
                    }
                }
                assert(!first_of_generation(ds, i as int)) by {
                    assert(ds[f as int].generation == ds[i as int].generation);
                }
            }
        } else {
            proof {
                assert forall|j: int| 0 <= j < i implies (#[trigger] ds[j]).generation != g || !first_of_generation(ds, j) by {
                    if first_of_generation(ds, j) && ds[j].generation == g {
                        let a = choose|a: int| 0 <= a < order@.len() && order@[a] == j;
                        if a >= p {
                            assert(ds[order@[p as int] as int].generation > g);
                            if a > p {
                                assert(ds[order@[p as int] as int].generation < ds[order@[a] as int].generation);
                            }
                        }
                    }
                }
                assert forall|j: int| 0 <= j < i implies (#[trigger] ds[j]).generation != ds[i as int].generation by {
                    if ds[j].generation == g {
                        lemma_first_of_generation_exists(ds, j);
                        let j0 = choose|j0: int| 0 <= j0 <= j && ds[j0].generation == g && first_of_generation(ds, j0);
                    }
                }
                assert(first_of_generation(ds, i as int));
            }
            let ghost old_order = order@;
            order.insert(p, i);
            proof {
                assert forall|j: int| 0 <= j < i + 1 && #[trigger] first_of_generation(ds, j) implies exists|a: int|
                    0 <= a < order@.len() && order@[a] == j by {
                    if j == i {
                        assert(order@[p as int] == i);
                    } else {
                        let a = choose|a: int| 0 <= a < old_order.len() && old_order[a] == j;
                        if a < p {
                            assert(order@[a] == j);
                        } else {
                            assert(order@[a + 1] == j);
                        }
                    }
                }
            }
        }
        i = i + 1;
    }
    proof {
        assert(ds.take(ds.len() as int) =~= ds);
    }
    Ok(order)
}

// ---------------------------------------------------------------------------
// Replay
// ---------------------------------------------------------------------------

/// `after` is `before` with the journal replayed: the first delta of each
/// generation applied by increasing generation, each skipped when it is not
/// newer than the generation reached.
pub open spec fn journal_replayed(
    before: LayeredSearchIndex,
    deltas: Seq<CommittedIndexDelta>,
    after: LayeredSearchIndex,
) -> bool {
    exists|order: Seq<usize>|
        #[trigger] generation_order(deltas, order) && {
            &&& after.baseline_view() == before.baseline_view()
            &&& after.comparison_mode() == before.comparison_mode()
            &&& (after.delta_state(), after.generation_spec()) == tail_applied(
                before.delta_state(),
                before.generation_spec(),
                before.base_kinds(),
                ordered_deltas(deltas, order),
                before.comparison_mode(),
            )
        }
}

/// Each step of replaying the journal over `index` leaves an overlay that
/// fits the search structures.
pub open spec fn journal_replay_fits(index: LayeredSearchIndex, deltas: Seq<CommittedIndexDelta>) -> bool {
    forall|order: Seq<usize>|
        #[trigger] generation_order(deltas, order) ==> forall|k: int|
            0 <= k <= order.len() ==> candidate_build_fits(
                overlay_in_key_order(
                    #[trigger] tail_applied(
                        index.delta_state(),
                        index.generation_spec(),
                        index.base_kinds(),
                        ordered_deltas(deltas, order).take(k),
                        index.comparison_mode(),
                    ).0.0,
                ),
                (u32::MAX - 1) as usize,
            )
}

/// Replays the committed journal onto `index`: every delta is checked first,
/// then the first delta of each generation is applied by increasing
/// generation. A malformed delta, or two different deltas at one generation,
/// leave the index untouched and report the first fault.
pub fn replay_deltas(index: LayeredSearchIndex, deltas: &[CommittedIndexDelta]) -> (r: Result<
    LayeredSearchIndex,
    String,
>)
    requires
        journal_replay_fits(index, deltas@),
    ensures
        match r {
            Ok(out) => journal_fault(deltas@, index.comparison_mode()) is None && journal_replayed(
                index,
                deltas@,
                out,
            ),
            Err(m) => journal_fault(deltas@, index.comparison_mode()) matches Some(f) && m@ == fault_text(f),
        },
{
    let mode = index.path_comparison_mode();
    let order = match ordered_unique_deltas(deltas, mode) {
        Ok(order) => order,
        Err(message) => return Err(message),
    };
    let ghost start = index;
    let ghost base = index.base_kinds();
    let ghost ds = deltas@;
    let ghost steps = ordered_deltas(ds, order@);
    let mut index = index;
    proof {
        assert(steps.take(0) =~= Seq::<CommittedIndexDelta>::empty());
    }
    let mut k: usize = 0;
    while k < order.len()
        invariant
            ds == deltas@,
            generation_order(ds, order@),
            steps == ordered_deltas(ds, order@),
            k <= order@.len(),
            index.baseline_view() == start.baseline_view(),
            index.comparison_mode() == start.comparison_mode(),
            base == start.base_kinds(),
            (index.delta_state(), index.generation_spec()) == tail_applied(
                start.delta_state(),
                start.generation_spec(),
                base,
                steps.take(k as int),
                start.comparison_mode(),
            ),
            forall|t: int| 0 <= t <= order@.len() ==> candidate_build_fits(
                overlay_in_key_order(
                    #[trigger] tail_applied(
                        start.delta_state(),
                        start.generation_spec(),
                        base,
                        steps.take(t),
                        start.comparison_mode(),
                    ).0.0,
                ),
                (u32::MAX - 1) as usize,
            ),
        decreases order@.len() - k,
    {
        assert(order@[k as int] < ds.len()) by {
            assert(first_of_generation(ds, order@[k as int] as int));
        }
        let delta = deltas[order[k]].duplicate();
        proof {
            assert(steps.take(k + 1).drop_last() =~= steps.take(k as int));
            assert(steps.take(k + 1).last() == ds[order@[k as int] as int]);
            let reached = tail_applied(
                start.delta_state(),
                start.generation_spec(),
                base,
                steps.take(k + 1),
                start.comparison_mode(),
            );
            assert(index.base_kinds() == base);
            if delta.generation > index.generation_spec() {
                assert(reached.0 == index.delta_outcome(delta));
            }
        }
        let ghost before = index;
        let ghost d = delta;
        index.apply_delta(delta);
        proof {
            let reached = tail_applied(
                start.delta_state(),
                start.generation_spec(),
                base,
                steps.take(k + 1),
                start.comparison_mode(),
            );
            if d.generation > before.generation_spec() {
                assert(reached.0 == before.delta_outcome(d));
            } else {
                assert(index == before);
            }
        }
        k = k + 1;
    }
    proof {
        assert(steps.take(order@.len() as int) =~= steps);
    }
    Ok(index)
}

// ---------------------------------------------------------------------------
// Laws of replay
// ---------------------------------------------------------------------------

proof fn lemma_tail_reaches(
    st: (Map<Seq<char>, (IndexedEntry, u64)>, Set<Seq<char>>, Set<Seq<char>>),
    gen: u64,
    base: Map<Seq<char>, crate::index_entry::IndexedEntryKind>,
    ds: Seq<CommittedIndexDelta>,
    mode: PathComparisonMode,
)
    ensures
        tail_applied(st, gen, base, ds, mode).1 >= gen,
        forall|k: int| 0 <= k < ds.len() ==> tail_applied(st, gen, base, ds, mode).1 >= (#[trigger] ds[k]).generation,
    decreases ds.len(),
{
    if ds.len() > 0 {
        lemma_tail_reaches(st, gen, base, ds.drop_last(), mode);
        assert forall|k: int| 0 <= k < ds.len() implies tail_applied(st, gen, base, ds, mode).1 >= (
        #[trigger] ds[k]).generation by {
            if k < ds.len() - 1 {
                assert(ds.drop_last()[k] == ds[k]);
            }
        }
    }
}

proof fn lemma_tail_skips(
    st: (Map<Seq<char>, (IndexedEntry, u64)>, Set<Seq<char>>, Set<Seq<char>>),
    gen: u64,
    base: Map<Seq<char>, crate::index_entry::IndexedEntryKind>,
    ds: Seq<CommittedIndexDelta>,
    mode: PathComparisonMode,
)
    requires
        forall|k: int| 0 <= k < ds.len() ==> (#[trigger] ds[k]).generation <= gen,
    ensures
        tail_applied(st, gen, base, ds, mode) == (st, gen),
    decreases ds.len(),
{
    if ds.len() > 0 {
        assert forall|k: int| 0 <= k < ds.drop_last().len() implies (#[trigger] ds.drop_last()[k]).generation <= gen by {
            assert(ds.drop_last()[k] == ds[k]);
        }
        lemma_tail_skips(st, gen, base, ds.drop_last(), mode);
    }
}

/// Law: replaying the same journal a second time changes nothing: every
/// delta the journal holds is at or below the generation the first replay
/// reached.
pub proof fn lemma_journal_replay_is_idempotent(
    index: LayeredSearchIndex,
    deltas: Seq<CommittedIndexDelta>,
    once: LayeredSearchIndex,
    twice: LayeredSearchIndex,
)
    requires
        journal_replayed(index, deltas, once),
        journal_replayed(once, deltas, twice),
    ensures
        twice.baseline_view() == once.baseline_view(),
        twice.comparison_mode() == once.comparison_mode(),
        twice.delta_state() == once.delta_state(),
        twice.generation_spec() == once.generation_spec(),
{
    let first = choose|order: Seq<usize>|
        #[trigger] generation_order(deltas, order) && {
            &&& once.baseline_view() == index.baseline_view()
            &&& once.comparison_mode() == index.comparison_mode()
            &&& (once.delta_state(), once.generation_spec()) == tail_applied(
                index.delta_state(),
                index.generation_spec(),
                index.base_kinds(),
                ordered_deltas(deltas, order),
                index.comparison_mode(),
            )
        };
    let second = choose|order: Seq<usize>|
        #[trigger] generation_order(deltas, order) && {
            &&& twice.baseline_view() == once.baseline_view()
            &&& twice.comparison_mode() == once.comparison_mode()
            &&& (twice.delta_state(), twice.generation_spec()) == tail_applied(
                once.delta_state(),
                once.generation_spec(),
                once.base_kinds(),
                ordered_deltas(deltas, order),
                once.comparison_mode(),
            )
        };
    let steps1 = ordered_deltas(deltas, first);
    let steps2 = ordered_deltas(deltas, second);
    lemma_tail_reaches(index.delta_state(), index.generation_spec(), index.base_kinds(), steps1, index.comparison_mode());
    assert forall|k: int| 0 <= k < steps2.len() implies (#[trigger] steps2[k]).generation <= once.generation_spec() by {
        let i = second[k] as int;
        assert(first_of_generation(deltas, i));
        let a = choose|a: int| 0 <= a < first.len() && first[a] == i;
        assert(steps1[a] == deltas[i]);
    }
    lemma_tail_skips(once.delta_state(), once.generation_spec(), once.base_kinds(), steps2, once.comparison_mode());
}

// ---------------------------------------------------------------------------
// Recovery
// ---------------------------------------------------------------------------

/// A baseline as the journal repository hands it back.
#[derive(Debug, Clone)]
pub struct RecoveryBaseline {
    pub available: bool,
    pub requires_full_refresh: bool,
    pub generation: u64,
    pub entries: Vec<IndexedEntry>,
}

/// What the journal repository answers to the questions recovery asks: whether
/// the incremental schema is ready, the active and the latest completed
/// baselines, the roots of the directory manifest and whether it validates,
/// which baseline roots have manifest rows, and the deltas committed after the
/// active baseline.
#[derive(Debug)]
pub struct RecoveryAnswers {
    pub schema_ready: Result<bool, String>,
    pub active_baseline: Result<RecoveryBaseline, String>,
    pub latest_baseline: Result<RecoveryBaseline, String>,
    pub manifest_roots: Result<Vec<String>, String>,
    pub manifest_valid: bool,
    pub roots_with_manifest_rows: Vec<String>,
    pub deltas: Result<Vec<CommittedIndexDelta>, String>,
}

/// Which way recovery goes.
#[derive(Debug, Clone, Copy, PartialEq, Eq, Structural)]
pub enum RecoveryRoute {
    /// The active baseline cannot be read: the latest completed one, degraded.
    LatestBaseline,
    /// Neither baseline can be read: an empty index, degraded.
    NoBaseline,
    /// No completed baseline yet: an empty index.
    Unavailable,
    /// The baseline asks for a full refresh: the baseline alone, degraded.
    FullRefresh,
    /// The manifest cannot be read or validated: the baseline alone, degraded.
    ManifestFailed,
    /// The journal cannot be read or has a fault: the baseline alone, degraded.
    JournalFailed,
    /// The journal replayed onto the baseline.
    Replayed,
}

/// The way recovery goes for these answers, delta keys taken by `mode`.
pub open spec fn recovery_route(a: RecoveryAnswers, mode: PathComparisonMode) -> RecoveryRoute {
    if !(a.schema_ready matches Ok(true)) || a.active_baseline is Err {
        if a.latest_baseline is Err {
            RecoveryRoute::NoBaseline
        } else {
            RecoveryRoute::LatestBaseline
        }
    } else {
        let b = a.active_baseline->Ok_0;
        if !b.available {
            RecoveryRoute::Unavailable
        } else if b.requires_full_refresh {
            RecoveryRoute::FullRefresh
        } else if a.manifest_roots is Err || !a.manifest_valid {
            RecoveryRoute::ManifestFailed
        } else if a.deltas is Err || journal_fault(a.deltas->Ok_0@, mode) is Some {
            RecoveryRoute::JournalFailed
        } else {
            RecoveryRoute::Replayed
        }
    }
}

/// The baseline the recovered index holds, if any.
pub open spec fn recovered_baseline(a: RecoveryAnswers, route: RecoveryRoute) -> Option<RecoveryBaseline> {
    match route {
        RecoveryRoute::LatestBaseline => Some(a.latest_baseline->Ok_0),
        RecoveryRoute::NoBaseline => None,
        RecoveryRoute::Unavailable => None,
        _ => Some(a.active_baseline->Ok_0),
    }
}

/// Every non-empty root of the baseline entries has manifest rows.
pub open spec fn baseline_roots_have_rows(entries: Seq<IndexedEntry>, with_rows: Seq<String>) -> bool {
    forall|i: int|
        0 <= i < entries.len() && (#[trigger] entries[i]).root@.len() > 0 ==> exists|j: int|
            0 <= j < with_rows.len() && same_path(#[trigger] with_rows[j]@, entries[i].root@)
}

/// The keys of the manifest roots.
pub open spec fn manifest_keys(roots: Seq<String>, mode: PathComparisonMode) -> Set<Seq<char>> {
    Set::new(|k: Seq<char>| exists|i: int| 0 <= i < roots.len() && path_key_spec(#[trigger] roots[i]@, mode) == k)
}

/// The manifest is ready: it has roots, and every baseline root has rows.
pub open spec fn manifest_ready_spec(a: RecoveryAnswers, mode: PathComparisonMode) -> bool {
    &&& a.manifest_roots matches Ok(roots) && roots@.len() > 0
    &&& baseline_roots_have_rows(a.active_baseline->Ok_0.entries@, a.roots_with_manifest_rows@)
}

/// The index a recovery yields, its health, and what the manifest covers.
pub struct IndexRecovery {
    pub index: LayeredSearchIndex,
    pub degradation: Option<IndexDegradationCode>,
    pub fallback_reason: Option<IndexFallbackReason>,
    baseline_entry_count: usize,
    baseline_available: bool,
    manifest_ready: bool,
    needs_manifest_rebuild: bool,
    manifest_roots: StrSet,
}

impl IndexRecovery {
    /// The recovered index.
    pub closed spec fn index_spec(&self) -> LayeredSearchIndex {
        self.index
    }

    pub closed spec fn degradation_spec(&self) -> Option<IndexDegradationCode> {
        self.degradation
    }

    pub closed spec fn fallback_spec(&self) -> Option<IndexFallbackReason> {
        self.fallback_reason
    }

    pub closed spec fn baseline_entry_count_spec(&self) -> usize {
        self.baseline_entry_count
    }

    pub closed spec fn baseline_available_spec(&self) -> bool {
        self.baseline_available
    }

    pub closed spec fn manifest_ready_spec(&self) -> bool {
        self.manifest_ready
    }

    pub closed spec fn needs_manifest_rebuild_spec(&self) -> bool {
        self.needs_manifest_rebuild
    }

    /// The keys of the manifest roots recorded when the journal replayed.
    pub closed spec fn manifest_root_keys(&self) -> Set<Seq<char>> {
        self.manifest_roots.members()
    }

    pub fn baseline_entry_count(&self) -> (r: usize)
        ensures
            r == self.baseline_entry_count_spec(),
    {
        self.baseline_entry_count
    }

    pub fn baseline_available(&self) -> (r: bool)
        ensures
            r == self.baseline_available_spec(),
    {
        self.baseline_available
    }

    pub fn degradation_code(&self) -> (r: Option<IndexDegradationCode>)
        ensures
            r == self.degradation_spec(),
    {
        self.degradation
    }

    pub fn fallback_reason(&self) -> (r: Option<IndexFallbackReason>)
        ensures
            r == self.fallback_spec(),
    {
        self.fallback_reason
    }

    pub fn manifest_ready(&self) -> (r: bool)
        ensures
            r == self.manifest_ready_spec(),
    {
        self.manifest_ready
    }

    pub fn needs_manifest_rebuild(&self) -> (r: bool)
        ensures
            r == self.needs_manifest_rebuild_spec(),
    {
        self.needs_manifest_rebuild
    }

    /// The manifest is ready and records every one of `roots`, compared by the
    /// index's path keys.
    pub fn manifest_covers_roots(&self, roots: &[String]) -> (r: bool)
        ensures
            r == (self.manifest_ready_spec() && forall|i: int|
                0 <= i < roots@.len() ==> self.manifest_root_keys().contains(
                    path_key_spec(#[trigger] roots@[i]@, self.index_spec().comparison_mode()),
                )),
    {
        if !self.manifest_ready {
            return false;
        }
        let mode = self.index.path_comparison_mode();
        let mut i: usize = 0;
        while i < roots.len()
            invariant
                i <= roots@.len(),
                mode == self.index_spec().comparison_mode(),
                forall|k: int| 0 <= k < i ==> self.manifest_root_keys().contains(path_key_spec(#[trigger] roots@[k]@, mode)),
            decreases roots@.len() - i,
        {
            let key = normalize_path_text_key_for_mode(roots[i].as_str(), mode);
            if !self.manifest_roots.contains(key.as_str()) {
                return false;
            }
            i = i + 1;
        }
        true
    }
}

/// A recovery of the baseline alone, installed into the empty `index`, with its
/// health.
fn baseline_only_recovery(
    index: LayeredSearchIndex,
    baseline: Vec<IndexedEntry>,
    generation: u64,
    baseline_entry_count: usize,
    baseline_available: bool,
    degradation: IndexDegradationCode,
    fallback_reason: IndexFallbackReason,
) -> (r: IndexRecovery)
    requires
        candidate_build_fits(baseline@, (u32::MAX - 1) as usize),
        index.generation_spec() == 0,
    ensures
        r.index_spec().comparison_mode() == index.comparison_mode(),
        r.index_spec().baseline_view() == baseline@,
        r.index_spec().overlay_map() == Map::<Seq<char>, (IndexedEntry, u64)>::empty(),
        r.index_spec().exact_tombstones() == Set::<Seq<char>>::empty(),
        r.index_spec().directory_tombstones() == Set::<Seq<char>>::empty(),
        r.index_spec().generation_spec() == generation,
        r.degradation_spec() == Some(degradation),
        r.fallback_spec() == Some(fallback_reason),
        r.baseline_entry_count_spec() == baseline_entry_count,
        r.baseline_available_spec() == baseline_available,
        !r.manifest_ready_spec(),
        r.needs_manifest_rebuild_spec() == baseline_available,
        r.manifest_root_keys() == Set::<Seq<char>>::empty(),
{
    let mut index = index;
    index.replace_baseline(baseline, generation);
    IndexRecovery {
        index,
        degradation: Some(degradation),
        fallback_reason: Some(fallback_reason),
        baseline_entry_count,
        baseline_available,
        manifest_ready: false,
        needs_manifest_rebuild: baseline_available,
        manifest_roots: StrSet::new(),
    }
}

/// Whether every non-empty root of the entries is one of `with_rows`, compared
/// as paths.
fn roots_have_rows(entries: &[IndexedEntry], with_rows: &[String]) -> (r: bool)
    ensures
        r == baseline_roots_have_rows(entries@, with_rows@),
{
    let mut i: usize = 0;
    while i < entries.len()
        invariant
            i <= entries@.len(),
            forall|k: int|
                0 <= k < i && (#[trigger] entries@[k]).root@.len() > 0 ==> exists|j: int|
                    0 <= j < with_rows@.len() && same_path(#[trigger] with_rows@[j]@, entries@[k].root@),
        decreases entries@.len() - i,
    {
        if !entries[i].root.as_str().is_empty() {
            let root = components_of(entries[i].root.as_str());
            let mut j: usize = 0;
            let mut found = false;
            while j < with_rows.len()
                invariant
                    j <= with_rows@.len(),
                    comps_view(root@) == path_components(entries@[i as int].root@),
                    found ==> exists|m: int| 0 <= m < with_rows@.len() && same_path(#[trigger] with_rows@[m]@, entries@[i as int].root@),
                    !found ==> forall|m: int| 0 <= m < j ==> !same_path(#[trigger] with_rows@[m]@, entries@[i as int].root@),
                decreases with_rows@.len() - j,
            {
                let c = components_of(with_rows[j].as_str());
                if comps_equal(c.as_slice(), root.as_slice()) {
                    found = true;
                    assert(same_path(with_rows@[j as int]@, entries@[i as int].root@));
                }
                j = j + 1;
            }
            if !found {
                return false;
            }
        }
        i = i + 1;
    }
    true
}

/// Recovers the layered index from the journal repository's answers: the
/// active baseline with the committed journal replayed onto it, or, where an
/// answer fails, the best baseline that can be had, with the degradation and
/// fallback reason that say why.
pub fn recover_layered_index(answers: RecoveryAnswers) -> (r: IndexRecovery)
    requires
        answers.active_baseline matches Ok(b) ==> candidate_build_fits(b.entries@, (u32::MAX - 1) as usize),
        answers.latest_baseline matches Ok(b) ==> candidate_build_fits(b.entries@, (u32::MAX - 1) as usize),
        answers.active_baseline matches Ok(b) ==> answers.deltas matches Ok(ds) ==> forall|idx: LayeredSearchIndex|
            #![trigger journal_replay_fits(idx, ds@)]
            idx.baseline_view() == b.entries@ && idx.overlay_map() == Map::<Seq<char>, (IndexedEntry, u64)>::empty()
                && idx.exact_tombstones() == Set::<Seq<char>>::empty() && idx.directory_tombstones() == Set::<
                Seq<char>,
            >::empty() && idx.generation_spec() == b.generation ==> journal_replay_fits(idx, ds@),
    ensures
        ({
            let mode = r.index_spec().comparison_mode();
            let route = recovery_route(answers, mode);
            &&& match recovered_baseline(answers, route) {
                Some(b) => r.baseline_entry_count_spec() == b.entries@.len(),
                None => r.baseline_entry_count_spec() == 0,
            }
            &&& match route {
                RecoveryRoute::Replayed => {
                    let b = answers.active_baseline->Ok_0;
                    &&& r.degradation_spec() is None && r.fallback_spec() is None
                    &&& r.baseline_available_spec()
                    &&& r.manifest_ready_spec() == manifest_ready_spec(answers, mode)
                    &&& r.needs_manifest_rebuild_spec() == !manifest_ready_spec(answers, mode)
                    &&& r.manifest_root_keys() == manifest_keys(answers.manifest_roots->Ok_0@, mode)
                    &&& exists|base: LayeredSearchIndex|
                        #![trigger journal_replayed(base, answers.deltas->Ok_0@, r.index_spec())]
                        base.baseline_view() == b.entries@ && base.overlay_map() == Map::<
                            Seq<char>,
                            (IndexedEntry, u64),
                        >::empty() && base.exact_tombstones() == Set::<Seq<char>>::empty()
                            && base.directory_tombstones() == Set::<Seq<char>>::empty() && base.generation_spec()
                            == b.generation && base.comparison_mode() == mode && journal_replayed(
                            base,
                            answers.deltas->Ok_0@,
                            r.index_spec(),
                        )
                },
                RecoveryRoute::Unavailable => {
                    &&& r.degradation_spec() is None && r.fallback_spec() is None
                    &&& !r.baseline_available_spec() && !r.manifest_ready_spec() && !r.needs_manifest_rebuild_spec()
                    &&& r.index_spec().baseline_view() == Seq::<IndexedEntry>::empty()
                    &&& r.index_spec().overlay_map() == Map::<Seq<char>, (IndexedEntry, u64)>::empty()
                    &&& r.index_spec().generation_spec() == 0
                    &&& r.manifest_root_keys() == Set::<Seq<char>>::empty()
                },
                _ => {
                    &&& r.index_spec().baseline_view() == (match recovered_baseline(answers, route) {
                        Some(b) => b.entries@,
                        None => Seq::<IndexedEntry>::empty(),
                    })
                    &&& r.index_spec().generation_spec() == (match recovered_baseline(answers, route) {
                        Some(b) => b.generation,
                        None => 0,
                    })
                    &&& r.index_spec().overlay_map() == Map::<Seq<char>, (IndexedEntry, u64)>::empty()
                    &&& r.index_spec().exact_tombstones() == Set::<Seq<char>>::empty()
                    &&& r.index_spec().directory_tombstones() == Set::<Seq<char>>::empty()
                    &&& r.degradation_spec() == Some(
                        if route == RecoveryRoute::ManifestFailed {
                            IndexDegradationCode::CalibrationFailed
                        } else {
                            IndexDegradationCode::JournalReplayFailed
                        },
                    )
                    &&& r.fallback_spec() == Some(
                        if route == RecoveryRoute::ManifestFailed || route == RecoveryRoute::FullRefresh {
                            IndexFallbackReason::FullRefreshFallback
                        } else {
                            IndexFallbackReason::JournalRecoveryFailed
                        },
                    )
                    &&& r.baseline_available_spec() == (match route {
                        RecoveryRoute::LatestBaseline => answers.latest_baseline->Ok_0.available,
                        RecoveryRoute::NoBaseline => false,
                        _ => true,
                    })
                    &&& !r.manifest_ready_spec()
                    &&& r.needs_manifest_rebuild_spec() == r.baseline_available_spec()
                    &&& r.manifest_root_keys() == Set::<Seq<char>>::empty()
                },
            }
        }),
{
    let probe = LayeredSearchIndex::default();
    let mode = probe.path_comparison_mode();
    let ghost route = recovery_route(answers, mode);
    let RecoveryAnswers {
        schema_ready,
        active_baseline,
        latest_baseline,
        manifest_roots,
        manifest_valid,
        roots_with_manifest_rows,
        deltas,
    } = answers;
    let schema_ok = match schema_ready {
        Ok(ready) => ready,
        Err(_) => false,
    };
    let active = match active_baseline {
        Ok(b) => {
            if schema_ok {
                Some(b)
            } else {
                None
            }
        },
        Err(_) => None,
    };
    let baseline = match active {
        Some(b) => b,
        None => {
            return match latest_baseline {
                Ok(latest) => {
                    let count = latest.entries.len();
                    baseline_only_recovery(
                        probe,
                        latest.entries,
                        latest.generation,
                        count,
                        latest.available,
                        IndexDegradationCode::JournalReplayFailed,
                        IndexFallbackReason::JournalRecoveryFailed,
                    )
                },
                Err(_) => baseline_only_recovery(
                    probe,
                    Vec::new(),
                    0,
                    0,
                    false,
                    IndexDegradationCode::JournalReplayFailed,
                    IndexFallbackReason::JournalRecoveryFailed,
                ),
            };
        },
    };
    if !baseline.available {
        return IndexRecovery {
            index: probe,
            degradation: None,
            fallback_reason: None,
            baseline_entry_count: 0,
            baseline_available: false,
            manifest_ready: false,
            needs_manifest_rebuild: false,
            manifest_roots: StrSet::new(),
        };
    }
    let count = baseline.entries.len();
    if baseline.requires_full_refresh {
        return baseline_only_recovery(
            probe,
            baseline.entries,
            baseline.generation,
            count,
            true,
            IndexDegradationCode::JournalReplayFailed,
            IndexFallbackReason::FullRefreshFallback,
        );
    }
    let roots = match manifest_roots {
        Ok(roots) => roots,
        Err(_) => {
            return baseline_only_recovery(
                probe,
                baseline.entries,
                baseline.generation,
                count,
                true,
                IndexDegradationCode::CalibrationFailed,
                IndexFallbackReason::FullRefreshFallback,
            );
        },
    };
    if !manifest_valid {
        return baseline_only_recovery(
            probe,
            baseline.entries,
            baseline.generation,
            count,
            true,
            IndexDegradationCode::CalibrationFailed,
            IndexFallbackReason::FullRefreshFallback,
        );
    }
    let mut keys = StrSet::new();
    let mut i: usize = 0;
    while i < roots.len()
        invariant
            i <= roots@.len(),
            keys.members() == Set::new(
                |k: Seq<char>| exists|m: int| 0 <= m < i && path_key_spec(#[trigger] roots@[m]@, mode) == k,
            ),
        decreases roots@.len() - i,
    {
        let key = normalize_path_text_key_for_mode(roots[i].as_str(), mode);
        let ghost before = keys.members();
        keys.insert(key);
        proof {
            assert(keys.members() =~= Set::new(
                |k: Seq<char>| exists|m: int| 0 <= m < i + 1 && path_key_spec(#[trigger] roots@[m]@, mode) == k,
            )) by {
                assert forall|k: Seq<char>| keys.members().contains(k) implies exists|m: int|
                    0 <= m < i + 1 && path_key_spec(#[trigger] roots@[m]@, mode) == k by {
                    if k == path_key_spec(roots@[i as int]@, mode) {
                        assert(path_key_spec(roots@[i as int]@, mode) == k);
                    } else {
                        assert(before.contains(k));
                    }
                }
            }
        }
        i = i + 1;
    }
    let ready = roots.len() > 0 && roots_have_rows(baseline.entries.as_slice(), roots_with_manifest_rows.as_slice());
    let journal = match deltas {
        Ok(ds) => ds,
        Err(_) => {
            return baseline_only_recovery(
                probe,
                baseline.entries,
                baseline.generation,
                count,
                true,
                IndexDegradationCode::JournalReplayFailed,
                IndexFallbackReason::JournalRecoveryFailed,
            );
        },
    };
    if ordered_unique_deltas(journal.as_slice(), mode).is_err() {
        return baseline_only_recovery(
            probe,
            baseline.entries,
            baseline.generation,
            count,
            true,
            IndexDegradationCode::JournalReplayFailed,
            IndexFallbackReason::JournalRecoveryFailed,
        );
    }
    let ghost entries = baseline.entries@;
    let mut index = probe;
    index.replace_baseline(baseline.entries, baseline.generation);
    let ghost base = index;
    match replay_deltas(index, journal.as_slice()) {
        Ok(replayed) => {
            proof {
                assert(journal_replayed(base, journal@, replayed));
            }
            IndexRecovery {
                index: replayed,
                degradation: None,
                fallback_reason: None,
                baseline_entry_count: count,
                baseline_available: true,
                manifest_ready: ready,
                needs_manifest_rebuild: !ready,
                manifest_roots: keys,
            }
        },
        Err(_) => {
            baseline_only_recovery(
                LayeredSearchIndex::default(),
                Vec::new(),
                0,
                0,
                false,
                IndexDegradationCode::JournalReplayFailed,
                IndexFallbackReason::JournalRecoveryFailed,
            )
        },
    }
}

} // verus!
