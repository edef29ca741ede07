//! The in-memory search index over indexed entries: the entries, their cached
//! search texts and the compact candidate index built from them.

use vstd::prelude::*;
use vstd::layout::size_of;
use crate::compact_index::{
    candidate_build_fits, entries_bytes, entry_bytes, saturate, saturating_mul, text_byte_len, text_bytes, lemma_entry_id_exists, lists_exactly, lists_id, names_len, paths_len, stored_model, query_complete, query_has_filters, stored_models, strictly_ascending,
    CompactCandidateIndex, EntryId,
};
use crate::file_matcher::{
    dir_filter_spec, entry_extension_spec, entry_search_text, entry_search_text_spec, term_matches_spec,
    FileMatcher,
};
use crate::file_query::{parse_spec, FileQuery, QueryModel};
use crate::index_entry::{main_separator, IndexedEntry};
use crate::index_watcher::IndexUpdateBatch;
use crate::layered_index::StrSet;
use crate::text::{
    chars_eq, chars_of, contains_seq, has_prefix, starts_with_chars, lemma_seq_lt_irreflexive, lemma_seq_lt_total, lemma_seq_lt_transitive, lex_less,
    lower, seq_lt,
};

verus! {

/// The search index's entries and the bytes their structs, strings and cached
/// search texts take.
#[derive(Debug, Clone, Copy, PartialEq, Eq, Structural)]
pub struct SearchIndexMemoryEstimate {
    pub entry_count: usize,
    pub entry_struct_bytes: usize,
    pub entry_string_bytes: usize,
    pub cached_search_text_bytes: usize,
}

/// A parsed query matches an entry: every field filter holds and every ordinary
/// term matches the entry's search text.
pub open spec fn query_matches(q: QueryModel, e: IndexedEntry) -> bool {
    &&& forall|i: int| 0 <= i < q.type_filters.len() ==> entry_extension_spec(e) == Some(#[trigger] q.type_filters[i])
    &&& forall|i: int| 0 <= i < q.name_filters.len() ==> contains_seq(lower(e.name@), lower(#[trigger] q.name_filters[i]))
    &&& forall|i: int| 0 <= i < q.dir_filters.len() ==> dir_filter_spec(#[trigger] q.dir_filters[i], e)
    &&& forall|i: int| 0 <= i < q.ordinary_terms.len() ==> term_matches_spec(
        #[trigger] q.ordinary_terms[i],
        e,
        entry_search_text_spec(e),
    )
}

/// What a name and path search comes to.
#[derive(Debug, Clone, PartialEq, Eq)]
pub enum NameSearchOutcome {
    /// The cancellation check asked to stop.
    Cancelled,
    /// The query asks for file contents, which this index does not hold.
    ContentIndexUnavailable,
    /// The positions of the matching entries, ascending.
    Matches(Vec<usize>),
}

// ---------------------------------------------------------------------------
// Ordering entries by path, then name
// ---------------------------------------------------------------------------

/// `a` sorts no later than `b`: by path, then by name.
pub open spec fn entry_key_le(a: IndexedEntry, b: IndexedEntry) -> bool {
    seq_lt(a.path@, b.path@) || (a.path@ == b.path@ && !seq_lt(b.name@, a.name@))
}

/// The entries come in path order, and in name order where paths are equal.
pub open spec fn sorted_by_path_name(s: Seq<IndexedEntry>) -> bool {
    forall|i: int, j: int| 0 <= i < j < s.len() ==> entry_key_le(#[trigger] s[i], #[trigger] s[j])
}

proof fn lemma_key_le_total(a: IndexedEntry, b: IndexedEntry)
    ensures
        entry_key_le(a, b) || entry_key_le(b, a),
{
    lemma_seq_lt_total(a.path@, b.path@);
    lemma_seq_lt_total(a.name@, b.name@);
    lemma_seq_lt_irreflexive(a.name@);
    if seq_lt(a.name@, b.name@) && seq_lt(b.name@, a.name@) {
        lemma_seq_lt_transitive(a.name@, b.name@, a.name@);
    }
}

proof fn lemma_key_le_transitive(a: IndexedEntry, b: IndexedEntry, c: IndexedEntry)
    requires
        entry_key_le(a, b),
        entry_key_le(b, c),
    ensures
        entry_key_le(a, c),
{
    if seq_lt(a.path@, b.path@) && seq_lt(b.path@, c.path@) {
        lemma_seq_lt_transitive(a.path@, b.path@, c.path@);
    }
    if a.path@ == b.path@ && b.path@ == c.path@ {
        lemma_seq_lt_total(a.name@, b.name@);
        lemma_seq_lt_total(b.name@, c.name@);
        if seq_lt(c.name@, a.name@) {
            if seq_lt(a.name@, b.name@) {
                lemma_seq_lt_transitive(c.name@, a.name@, b.name@);
            } else if a.name@ != b.name@ {
                assert(seq_lt(b.name@, a.name@));
            }
        }
    }
}

/// Whether `a` sorts no later than `b`.
fn entry_sorts_first(a: &IndexedEntry, b: &IndexedEntry) -> (r: bool)
    ensures
        r == entry_key_le(*a, *b),
{
    let ap = chars_of(a.path.as_str());
    let bp = chars_of(b.path.as_str());
    if lex_less(ap.as_slice(), bp.as_slice()) {
        return true;
    }
    if !chars_eq(ap.as_slice(), bp.as_slice()) {
        return false;
    }
    let an = chars_of(a.name.as_str());
    let bn = chars_of(b.name.as_str());
    !lex_less(bn.as_slice(), an.as_slice())
}

/// The two sorted runs merged into one sorted run holding both.
fn merge_sorted(left: Vec<IndexedEntry>, right: Vec<IndexedEntry>) -> (r: Vec<IndexedEntry>)
    requires
        sorted_by_path_name(left@),
        sorted_by_path_name(right@),
    ensures
        sorted_by_path_name(r@),
        r@.to_multiset() == left@.to_multiset().add(right@.to_multiset()),
{
    broadcast use vstd::multiset::group_multiset_axioms, vstd::seq_lib::group_to_multiset_ensures;

    let mut out: Vec<IndexedEntry> = Vec::new();
    let mut i: usize = 0;
    let mut j: usize = 0;
    proof {
        let e = Seq::<IndexedEntry>::empty();
        assert(left@.take(0) =~= e);
        assert(right@.take(0) =~= e);
        assert(out@ =~= e);
        assert(e.to_multiset() =~= vstd::multiset::Multiset::<IndexedEntry>::empty());
        assert(out@.to_multiset() =~= left@.take(0).to_multiset().add(right@.take(0).to_multiset()));
    }
    while i < left.len() || j < right.len()
        invariant
            i <= left@.len(),
            j <= right@.len(),
            sorted_by_path_name(left@),
            sorted_by_path_name(right@),
            sorted_by_path_name(out@),
            out@.to_multiset() == left@.take(i as int).to_multiset().add(right@.take(j as int).to_multiset()),
            i < left@.len() ==> forall|k: int| 0 <= k < out@.len() ==> entry_key_le(#[trigger] out@[k], left@[i as int]),
            j < right@.len() ==> forall|k: int| 0 <= k < out@.len() ==> entry_key_le(#[trigger] out@[k], right@[j as int]),
        decreases left@.len() - i + right@.len() - j,
    {
        let take_left = if i < left.len() && j < right.len() {
            entry_sorts_first(&left[i], &right[j])
        } else {
            i < left.len()
        };
        let ghost old_out = out@;
        if take_left {
            let x = left[i].duplicate();
            proof {
                if j < right@.len() {
                    assert(entry_key_le(x, right@[j as int]));
                }
                if i + 1 < left@.len() {
                    assert(entry_key_le(left@[i as int], left@[i + 1]));
                    assert forall|k: int| 0 <= k < old_out.len() implies entry_key_le(#[trigger] old_out[k], left@[i + 1]) by {
                        lemma_key_le_transitive(old_out[k], left@[i as int], left@[i + 1]);
                    }
                }
                assert(left@.take(i + 1) =~= left@.take(i as int).push(left@[i as int]));
            }
            out.push(x);
            proof {
                assert(out@ == old_out.push(x));
                vstd::seq_lib::to_multiset_build(old_out, x);
                vstd::seq_lib::to_multiset_build(left@.take(i as int), left@[i as int]);
                assert(left@.take(i as int).push(left@[i as int]).to_multiset() == left@.take(
                    i as int,
                ).to_multiset().insert(left@[i as int]));
            }
            i = i + 1;
        } else {
            let x = right[j].duplicate();
            proof {
                if i < left@.len() {
                    lemma_key_le_total(left@[i as int], right@[j as int]);
                    assert(entry_key_le(x, left@[i as int]));
                }
                if j + 1 < right@.len() {
                    assert(entry_key_le(right@[j as int], right@[j + 1]));
                    assert forall|k: int| 0 <= k < old_out.len() implies entry_key_le(#[trigger] old_out[k], right@[j + 1]) by {
                        lemma_key_le_transitive(old_out[k], right@[j as int], right@[j + 1]);
                    }
                }
                assert(right@.take(j + 1) =~= right@.take(j as int).push(right@[j as int]));
            }
            out.push(x);
            proof {
                assert(out@ == old_out.push(x));
                vstd::seq_lib::to_multiset_build(old_out, x);
                vstd::seq_lib::to_multiset_build(right@.take(j as int), right@[j as int]);
                assert(right@.take(j as int).push(right@[j as int]).to_multiset() == right@.take(
                    j as int,
                ).to_multiset().insert(right@[j as int]));
            }
            j = j + 1;
        }
        proof {
            assert forall|a: int, b: int| 0 <= a < b < out@.len() implies entry_key_le(#[trigger] out@[a], #[trigger] out@[b]) by {
                if b < old_out.len() {
                    assert(out@[a] == old_out[a] && out@[b] == old_out[b]);
                } else {
                    assert(out@[a] == old_out[a]);
                }
            }
            assert(out@.to_multiset() =~= left@.take(i as int).to_multiset().add(right@.take(j as int).to_multiset()));
        }
    }
    proof {
        assert(left@.take(i as int) =~= left@);
        assert(right@.take(j as int) =~= right@);
    }
    out
}

/// The entries sorted by path, then by name.
pub fn sort_by_path_name(v: Vec<IndexedEntry>) -> (r: Vec<IndexedEntry>)
    ensures
        sorted_by_path_name(r@),
        r@.to_multiset() == v@.to_multiset(),
    decreases v@.len(),
{
    if v.len() <= 1 {
        return v;
    }
    let mid = v.len() / 2;
    let ghost whole = v@;
    let mut left = v;
    let right = left.split_off(mid);
    proof {
        assert(whole =~= left@ + right@);
        vstd::seq_lib::lemma_multiset_commutative(left@, right@);
    }
    let sorted_left = sort_by_path_name(left);
    let sorted_right = sort_by_path_name(right);
    merge_sorted(sorted_left, sorted_right)
}

// ---------------------------------------------------------------------------
// Sums over entries
// ---------------------------------------------------------------------------

/// The sum of `f` over the entries.
pub open spec fn total(s: Seq<IndexedEntry>, f: spec_fn(IndexedEntry) -> nat) -> nat
    decreases s.len(),
{
    if s.len() == 0 {
        0
    } else {
        total(s.drop_last(), f) + f(s.last())
    }
}

proof fn lemma_total_concat(a: Seq<IndexedEntry>, b: Seq<IndexedEntry>, f: spec_fn(IndexedEntry) -> nat)
    ensures
        total(a + b, f) == total(a, f) + total(b, f),
    decreases b.len(),
{
    if b.len() == 0 {
        assert(a + b =~= a);
    } else {
        lemma_total_concat(a, b.drop_last(), f);
        assert((a + b).drop_last() =~= a + b.drop_last());
    }
}

proof fn lemma_total_filter(s: Seq<IndexedEntry>, p: spec_fn(IndexedEntry) -> bool, f: spec_fn(IndexedEntry) -> nat)
    ensures
        total(s.filter(p), f) <= total(s, f),
    decreases s.len(),
{
    reveal(Seq::filter);
    if s.len() > 0 {
        lemma_total_filter(s.drop_last(), p, f);
        if p(s.last()) {
            assert(s.filter(p).drop_last() =~= s.drop_last().filter(p));
        }
    }
}

proof fn lemma_total_fold(s: Seq<IndexedEntry>, f: spec_fn(IndexedEntry) -> nat)
    ensures
        total(s, f) == s.fold_left(0nat, |acc: nat, e: IndexedEntry| acc + f(e)),
    decreases s.len(),
{
    if s.len() > 0 {
        lemma_total_fold(s.drop_last(), f);
    }
}

proof fn lemma_total_permutation(a: Seq<IndexedEntry>, b: Seq<IndexedEntry>, f: spec_fn(IndexedEntry) -> nat)
    requires
        a.to_multiset() == b.to_multiset(),
    ensures
        total(a, f) == total(b, f),
{
    let g = |acc: nat, e: IndexedEntry| acc + f(e);
    lemma_total_fold(a, f);
    lemma_total_fold(b, f);
    assert(vstd::seq_lib::commutative_foldl(g));
    vstd::seq_lib::lemma_fold_left_permutation(a, b, g, 0nat);
}

proof fn lemma_sizes_are_totals(s: Seq<IndexedEntry>)
    ensures
        entries_bytes(s) == total(s, |e: IndexedEntry| entry_bytes(e)),
        names_len(stored_models(s)) == total(s, |e: IndexedEntry| e.name@.len()),
        paths_len(stored_models(s)) == total(s, |e: IndexedEntry| e.path@.len()),
    decreases s.len(),
{
    if s.len() > 0 {
        lemma_sizes_are_totals(s.drop_last());
        assert(stored_models(s).drop_last() =~= stored_models(s.drop_last()));
        assert(stored_models(s).last() == stored_model(s.last()));
    }
}

/// Rebuilding from the kept entries and the changed ones fits wherever the old
/// entries together with the changed ones did.
proof fn lemma_batch_fits(
    old_entries: Seq<IndexedEntry>,
    changed: Seq<IndexedEntry>,
    p: spec_fn(IndexedEntry) -> bool,
    result: Seq<IndexedEntry>,
)
    requires
        candidate_build_fits(old_entries + changed, (u32::MAX - 1) as usize),
        result.to_multiset() == (old_entries.filter(p) + changed).to_multiset(),
    ensures
        candidate_build_fits(result, (u32::MAX - 1) as usize),
{
    broadcast use vstd::seq_lib::group_to_multiset_ensures, vstd::seq_lib::group_filter_ensures;

    let kept = old_entries.filter(p) + changed;
    let bytes = |e: IndexedEntry| entry_bytes(e);
    let names = |e: IndexedEntry| e.name@.len();
    let paths = |e: IndexedEntry| e.path@.len();
    lemma_sizes_are_totals(old_entries + changed);
    lemma_sizes_are_totals(result);
    lemma_total_permutation(result, kept, bytes);
    lemma_total_permutation(result, kept, names);
    lemma_total_permutation(result, kept, paths);
    lemma_total_concat(old_entries.filter(p), changed, bytes);
    lemma_total_concat(old_entries.filter(p), changed, names);
    lemma_total_concat(old_entries.filter(p), changed, paths);
    lemma_total_concat(old_entries, changed, bytes);
    lemma_total_concat(old_entries, changed, names);
    lemma_total_concat(old_entries, changed, paths);
    lemma_total_filter(old_entries, p, bytes);
    lemma_total_filter(old_entries, p, names);
    lemma_total_filter(old_entries, p, paths);
    assert(result.len() == result.to_multiset().len());
    assert(kept.len() == kept.to_multiset().len());
    assert forall|i: int| 0 <= i < result.len() implies #[trigger] result[i].depth <= u32::MAX by {
        let x = result[i];
        assert(result.contains(x));
        assert(result.to_multiset().count(x) > 0);
        assert(kept.contains(x));
        let k = choose|k: int| 0 <= k < kept.len() && kept[k] == x;
        if k < old_entries.filter(p).len() {
            assert(old_entries.filter(p).contains(x));
            old_entries.lemma_filter_contains_rev(p, x);
            let m = choose|m: int| 0 <= m < old_entries.len() && old_entries[m] == x;
            assert((old_entries + changed)[m] == x);
        } else {
            assert((old_entries + changed)[old_entries.len() + k - old_entries.filter(p).len()] == x);
        }
    }
}

// ---------------------------------------------------------------------------
// Update batches
// ---------------------------------------------------------------------------

/// `path` is `root`, or lies below it: after `root` comes the separator.
pub open spec fn path_under(path: Seq<char>, root: Seq<char>, sep: char) -> bool {
    path == root || (has_prefix(path, root) && path.len() > root.len() && path[root.len() as int] == sep)
}

/// A removed path of the batch is `path` or one of its ancestors.
pub open spec fn path_affected(path: Seq<char>, removed: Seq<Seq<char>>, sep: char) -> bool {
    exists|k: int| 0 <= k < removed.len() && path_under(path, #[trigger] removed[k], sep)
}

/// The paths of the entries.
pub open spec fn entry_paths(s: Seq<IndexedEntry>) -> Set<Seq<char>> {
    Set::new(|p: Seq<char>| exists|k: int| 0 <= k < s.len() && (#[trigger] s[k]).path@ == p)
}

/// An entry stays through a batch: no removed path covers it and no changed
/// entry replaces it.
pub open spec fn survives_batch(removed: Seq<Seq<char>>, changed: Set<Seq<char>>, sep: char) -> spec_fn(
    IndexedEntry,
) -> bool {
    |e: IndexedEntry| !path_affected(e.path@, removed, sep) && !changed.contains(e.path@)
}

/// What a batch leaves: the surviving old entries and the changed ones, sorted
/// by path, then name.
pub open spec fn batch_outcome(
    old_entries: Seq<IndexedEntry>,
    removed: Seq<Seq<char>>,
    changed: Seq<IndexedEntry>,
    sep: char,
    result: Seq<IndexedEntry>,
) -> bool {
    &&& sorted_by_path_name(result)
    &&& result.to_multiset() == (old_entries.filter(survives_batch(removed, entry_paths(changed), sep))
        + changed).to_multiset()
}

/// Law: after an update batch the index holds every changed entry and every
/// old entry that no removed path covers and no changed entry replaces, and
/// nothing else.
pub proof fn lemma_batch_keeps_survivors_and_changes(
    old_entries: Seq<IndexedEntry>,
    removed: Seq<Seq<char>>,
    changed: Seq<IndexedEntry>,
    sep: char,
    result: Seq<IndexedEntry>,
)
    requires
        batch_outcome(old_entries, removed, changed, sep, result),
    ensures
        forall|k: int| 0 <= k < changed.len() ==> result.contains(#[trigger] changed[k]),
        forall|x: IndexedEntry|
            old_entries.contains(x) && !path_affected(x.path@, removed, sep) && !entry_paths(changed).contains(x.path@)
                ==> #[trigger] result.contains(x),
        forall|x: IndexedEntry| #[trigger]
            result.contains(x) ==> changed.contains(x) || (old_entries.contains(x) && !path_affected(
                x.path@,
                removed,
                sep,
            ) && !entry_paths(changed).contains(x.path@)),
{
    broadcast use vstd::seq_lib::group_to_multiset_ensures, vstd::seq_lib::group_filter_ensures;

    let keep = survives_batch(removed, entry_paths(changed), sep);
    let kept = old_entries.filter(keep);
    let both = kept + changed;
    assert forall|k: int| 0 <= k < changed.len() implies result.contains(#[trigger] changed[k]) by {
        assert(both[kept.len() + k] == changed[k]);
        assert(both.contains(changed[k]));
        assert(both.to_multiset().count(changed[k]) > 0);
        assert(result.to_multiset().count(changed[k]) > 0);
    }
    assert forall|x: IndexedEntry|
        old_entries.contains(x) && !path_affected(x.path@, removed, sep) && !entry_paths(changed).contains(x.path@)
            implies #[trigger] result.contains(x) by {
        let m = choose|m: int| 0 <= m < old_entries.len() && old_entries[m] == x;
        assert(keep(old_entries[m]));
        assert(kept.contains(x));
        let j = choose|j: int| 0 <= j < kept.len() && kept[j] == x;
        assert(both[j] == x);
        assert(both.contains(x));
        assert(both.to_multiset().count(x) > 0);
        assert(result.to_multiset().count(x) > 0);
    }
    assert forall|x: IndexedEntry| #[trigger] result.contains(x) implies changed.contains(x) || (old_entries.contains(x)
        && !path_affected(x.path@, removed, sep) && !entry_paths(changed).contains(x.path@)) by {
        assert(result.to_multiset().count(x) > 0);
        assert(both.to_multiset().count(x) > 0);
        assert(both.contains(x));
        let j = choose|j: int| 0 <= j < both.len() && both[j] == x;
        if j < kept.len() {
            assert(kept[j] == x);
            assert(keep(kept[j]));
            old_entries.lemma_filter_contains_rev(keep, x);
        } else {
            assert(changed[j - kept.len()] == x);
        }
    }
}

fn path_is_affected(path: &str, removed: &Vec<String>, sep: char) -> (r: bool)
    ensures
        r == path_affected(path@, crate::platform::views(removed@), sep),
{
    let p = chars_of(path);
    let ghost rv = crate::platform::views(removed@);
    let mut k: usize = 0;
    while k < removed.len()
        invariant
            k <= removed@.len(),
            p@ == path@,
            rv == crate::platform::views(removed@),
            forall|m: int| 0 <= m < k ==> !path_under(path@, #[trigger] rv[m], sep),
        decreases removed@.len() - k,
    {
        let root = chars_of(removed[k].as_str());
        assert(root@ == rv[k as int]);
        if chars_eq(p.as_slice(), root.as_slice()) {
            return true;
        }
        if starts_with_chars(p.as_slice(), root.as_slice()) && p.len() > root.len() && p[root.len()] == sep {
            return true;
        }
        k = k + 1;
    }
    false
}

/// Entries in insertion order with their search texts and candidate index.
pub struct SearchIndex {
    entries: Vec<IndexedEntry>,
    search_texts: Vec<String>,
    compact_candidates: CompactCandidateIndex,
}

impl View for SearchIndex {
    type V = Seq<IndexedEntry>;

    closed spec fn view(&self) -> Seq<IndexedEntry> {
        self.entries@
    }
}

/// A copy of every entry, in order.
fn duplicate_entries(entries: &[IndexedEntry]) -> (r: Vec<IndexedEntry>)
    ensures
        r@ == entries@,
{
    let mut out: Vec<IndexedEntry> = Vec::new();
    let mut i: usize = 0;
    while i < entries.len()
        invariant
            i <= entries@.len(),
            out@ == entries@.take(i as int),
        decreases entries@.len() - i,
    {
        out.push(entries[i].duplicate());
        proof {
            assert(entries@.take(i + 1) =~= entries@.take(i as int).push(entries@[i as int]));
        }
        i = i + 1;
    }
    proof {
        assert(entries@.take(entries@.len() as int) =~= entries@);
    }
    out
}

/// The search text of every entry, in order.
fn search_texts_of(entries: &[IndexedEntry]) -> (r: Vec<String>)
    ensures
        r@.len() == entries@.len(),
        forall|i: int| 0 <= i < entries@.len() ==> #[trigger] r@[i]@ == entry_search_text_spec(entries@[i]),
{
    let mut out: Vec<String> = Vec::new();
    let mut i: usize = 0;
    while i < entries.len()
        invariant
            i <= entries@.len(),
            out@.len() == i,
            forall|k: int| 0 <= k < i ==> #[trigger] out@[k]@ == entry_search_text_spec(entries@[k]),
        decreases entries@.len() - i,
    {
        out.push(entry_search_text(&entries[i]));
        i = i + 1;
    }
    out
}

impl SearchIndex {
    #[verifier::type_invariant]
    spec fn inv(&self) -> bool {
        &&& self.search_texts@.len() == self.entries@.len()
        &&& self.entries@.len() <= u32::MAX
        &&& entries_bytes(self.entries@) <= u32::MAX
        &&& forall|i: int| 0 <= i < self.entries@.len() ==> #[trigger] self.search_texts@[i]@ == entry_search_text_spec(
            self.entries@[i],
        )
        &&& self.compact_candidates@ == stored_models(self.entries@)
    }

    /// An index over `entries`, kept in the order given.
    pub fn from_entries(entries: Vec<IndexedEntry>) -> (r: Self)
        requires
            candidate_build_fits(entries@, (u32::MAX - 1) as usize),
        ensures
            r@ == entries@,
    {
        let search_texts = search_texts_of(entries.as_slice());
        let copy = duplicate_entries(entries.as_slice());
        let compact_candidates = CompactCandidateIndex::from_entries(copy);
        SearchIndex { entries, search_texts, compact_candidates }
    }

    /// The entries, in order.
    pub fn entries(&self) -> (r: &[IndexedEntry])
        ensures
            r@ == self@,
            r@.len() <= u32::MAX,
    {
        proof {
            use_type_invariant(self);
        }
        self.entries.as_slice()
    }
}

/// `matches_with_search_text` against the query parsed from `query` is
/// `query_matches` against its model.
proof fn lemma_matcher_agrees(q: FileQuery, e: IndexedEntry, text: Seq<char>)
    requires
        text == entry_search_text_spec(e),
    ensures
        (crate::file_matcher::fields_match(q, e) && forall|i: int|
            0 <= i < q.ordinary_terms@.len() ==> term_matches_spec(#[trigger] q.ordinary_terms@[i]@, e, text))
            == query_matches(q.model(), e),
{
    let m = q.model();
    assert(m.type_filters.len() == q.type_filters@.len());
    assert(m.name_filters.len() == q.name_filters@.len());
    assert(m.dir_filters.len() == q.dir_filters@.len());
    assert(m.ordinary_terms.len() == q.ordinary_terms@.len());
    let left_types = forall|i: int| 0 <= i < q.type_filters@.len() ==> entry_extension_spec(e) == Some(#[trigger] q.type_filters@[i]@);
    let right_types = forall|i: int| 0 <= i < m.type_filters.len() ==> entry_extension_spec(e) == Some(#[trigger] m.type_filters[i]);
    if left_types {
        assert forall|i: int| 0 <= i < m.type_filters.len() implies entry_extension_spec(e) == Some(#[trigger] m.type_filters[i]) by {
            assert(m.type_filters[i] == q.type_filters@[i]@);
        }
    }
    if right_types {
        assert forall|i: int| 0 <= i < q.type_filters@.len() implies entry_extension_spec(e) == Some(#[trigger] q.type_filters@[i]@) by {
            assert(m.type_filters[i] == q.type_filters@[i]@);
        }
    }
    let left_names = forall|i: int| 0 <= i < q.name_filters@.len() ==> contains_seq(lower(e.name@), lower(#[trigger] q.name_filters@[i]@));
    let right_names = forall|i: int| 0 <= i < m.name_filters.len() ==> contains_seq(lower(e.name@), lower(#[trigger] m.name_filters[i]));
    if left_names {
        assert forall|i: int| 0 <= i < m.name_filters.len() implies contains_seq(lower(e.name@), lower(#[trigger] m.name_filters[i])) by {
            assert(m.name_filters[i] == q.name_filters@[i]@);
        }
    }
    if right_names {
        assert forall|i: int| 0 <= i < q.name_filters@.len() implies contains_seq(lower(e.name@), lower(#[trigger] q.name_filters@[i]@)) by {
            assert(m.name_filters[i] == q.name_filters@[i]@);
        }
    }
    let left_dirs = forall|i: int| 0 <= i < q.dir_filters@.len() ==> dir_filter_spec(#[trigger] q.dir_filters@[i]@, e);
    let right_dirs = forall|i: int| 0 <= i < m.dir_filters.len() ==> dir_filter_spec(#[trigger] m.dir_filters[i], e);
    if left_dirs {
        assert forall|i: int| 0 <= i < m.dir_filters.len() implies dir_filter_spec(#[trigger] m.dir_filters[i], e) by {
            assert(m.dir_filters[i] == q.dir_filters@[i]@);
        }
    }
    if right_dirs {
        assert forall|i: int| 0 <= i < q.dir_filters@.len() implies dir_filter_spec(#[trigger] q.dir_filters@[i]@, e) by {
            assert(m.dir_filters[i] == q.dir_filters@[i]@);
        }
    }
    let left_terms = forall|i: int| 0 <= i < q.ordinary_terms@.len() ==> term_matches_spec(#[trigger] q.ordinary_terms@[i]@, e, text);
    let right_terms = forall|i: int| 0 <= i < m.ordinary_terms.len() ==> term_matches_spec(#[trigger] m.ordinary_terms[i], e, text);
    if left_terms {
        assert forall|i: int| 0 <= i < m.ordinary_terms.len() implies term_matches_spec(#[trigger] m.ordinary_terms[i], e, text) by {
            assert(m.ordinary_terms[i] == q.ordinary_terms@[i]@);
        }
    }
    if right_terms {
        assert forall|i: int| 0 <= i < q.ordinary_terms@.len() implies term_matches_spec(#[trigger] q.ordinary_terms@[i]@, e, text) by {
            assert(m.ordinary_terms[i] == q.ordinary_terms@[i]@);
        }
    }
}

impl SearchIndex {
    /// The entries that a name and path query matches, in index order: at most
    /// `limit` of them, the first ones in index order: every entry that the
    /// candidate index must recall, matches and is visible, up to the last one
    /// returned, and all of them when fewer than `limit` come back. `is_cancelled` is asked first,
    /// after the candidates are gathered, and then once every 1024 candidates.
    pub fn search_name_path<C: Fn() -> bool, V: Fn(&IndexedEntry) -> bool>(
        &self,
        query: &str,
        limit: usize,
        is_cancelled: C,
        is_visible: V,
    ) -> (r: NameSearchOutcome)
        requires
            call_requires(is_cancelled, ()),
            forall|c: C| c == is_cancelled ==> call_requires(c, ()),
            forall|e: &IndexedEntry| call_requires(is_visible, (e,)),
        ensures
            r is Cancelled ==> call_ensures(is_cancelled, (), true),
            r is ContentIndexUnavailable <==> (!(r is Cancelled) && limit > 0
                && parse_spec(query@).content_queries.len() > 0),
            match r {
                NameSearchOutcome::Matches(pos) => {
                    &&& pos@.len() <= limit
                    &&& (limit == 0 || !query_has_filters(parse_spec(query@))) ==> pos@.len() == 0
                    &&& forall|i: int, j: int| 0 <= i < j < pos@.len() ==> #[trigger] pos@[i] < #[trigger] pos@[j]
                    &&& forall|k: int| 0 <= k < pos@.len() ==> #[trigger] pos@[k] < self@.len()
                    &&& forall|k: int| 0 <= k < pos@.len() ==> query_matches(parse_spec(query@), self@[#[trigger] pos@[k] as int])
                    &&& forall|k: int| 0 <= k < pos@.len() ==> call_ensures(is_visible, (&self@[#[trigger] pos@[k] as int],), true)
                    &&& query_has_filters(parse_spec(query@)) ==> forall|i: int|
                        0 <= i < self@.len() && query_complete(stored_models(self@), i, parse_spec(query@))
                            && query_matches(parse_spec(query@), #[trigger] self@[i]) && (pos@.len() < limit || (
                        pos@.len() > 0 && i < pos@[pos@.len() - 1])) ==> pos@.contains(i as usize)
                            || call_ensures(is_visible, (&self@[i],), false)
                },
                _ => true,
            },
    {
        proof {
            use_type_invariant(self);
        }
        if is_cancelled() {
            return NameSearchOutcome::Cancelled;
        }
        let parsed = FileQuery::parse(query);
        if limit == 0 || (!parsed.has_name_path_constraints() && !parsed.has_content_query()) {
            return NameSearchOutcome::Matches(Vec::new());
        }
        if parsed.has_content_query() {
            return NameSearchOutcome::ContentIndexUnavailable;
        }
        let matcher = FileMatcher::new();
        let retrieval = self.compact_candidates.retrieve_query(query);
        let candidate_ids = retrieval.candidates;
        if is_cancelled() {
            return NameSearchOutcome::Cancelled;
        }
        let ghost q = parse_spec(query@);
        let ghost models = stored_models(self.entries@);
        let n = self.entries.len();
        proof {
            assert forall|k: int| 0 <= k < candidate_ids@.len() implies (#[trigger] candidate_ids@[k]).value() < n by {
                assert(candidate_ids@.contains(candidate_ids@[k]));
            }
            assert(query_has_filters(q));
        }
        let mut found: Vec<usize> = Vec::new();
        let mut ci: usize = 0;
        while ci < candidate_ids.len()
            invariant_except_break
                found@.len() < limit,
            invariant
                ci <= candidate_ids@.len(),
                n == self.entries@.len(),
                q == parse_spec(query@),
                parsed.model() == q,
                q.content_queries.len() == 0,
                models == stored_models(self.entries@),
                self.compact_candidates@ == models,
                self.search_texts@.len() == self.entries@.len(),
                forall|i: int| 0 <= i < self.entries@.len() ==> #[trigger] self.search_texts@[i]@
                    == entry_search_text_spec(self.entries@[i]),
                strictly_ascending(candidate_ids@),
                forall|k: int| 0 <= k < candidate_ids@.len() ==> (#[trigger] candidate_ids@[k]).value() < n,
                forall|i: nat| i < n && query_complete(models, i as int, q) ==> #[trigger] lists_id(candidate_ids@, i),
                forall|i: int, j: int| 0 <= i < j < found@.len() ==> #[trigger] found@[i] < #[trigger] found@[j],
                forall|k: int| 0 <= k < found@.len() ==> #[trigger] found@[k] < n,
                ci < candidate_ids@.len() ==> forall|k: int| 0 <= k < found@.len() ==> #[trigger] found@[k]
                    < candidate_ids@[ci as int].value(),
                forall|k: int| 0 <= k < found@.len() ==> query_matches(q, self.entries@[#[trigger] found@[k] as int]),
                forall|k: int| 0 <= k < found@.len() ==> call_ensures(is_visible, (&self.entries@[#[trigger] found@[k] as int],), true),
                forall|k: int| 0 <= k < ci ==> {
                    let i = (#[trigger] candidate_ids@[k]).value() as int;
                    query_matches(q, self.entries@[i]) ==> found@.contains(i as usize) || call_ensures(
                        is_visible,
                        (&self.entries@[i],),
                        false,
                    )
                },
                forall|c: C| c == is_cancelled ==> call_requires(c, ()),
                forall|e: &IndexedEntry| call_requires(is_visible, (e,)),
            ensures
                found@.len() <= limit,
                found@.len() < limit ==> ci == candidate_ids@.len(),
                ci <= candidate_ids@.len(),
                ci < candidate_ids@.len() ==> forall|k: int| 0 <= k < found@.len() ==> #[trigger] found@[k]
                    < candidate_ids@[ci as int].value(),
                forall|i: int, j: int| 0 <= i < j < found@.len() ==> #[trigger] found@[i] < #[trigger] found@[j],
                forall|k: int| 0 <= k < found@.len() ==> #[trigger] found@[k] < n,
                forall|k: int| 0 <= k < found@.len() ==> query_matches(q, self.entries@[#[trigger] found@[k] as int]),
                forall|k: int| 0 <= k < found@.len() ==> call_ensures(is_visible, (&self.entries@[#[trigger] found@[k] as int],), true),
                forall|k: int| 0 <= k < ci ==> {
                    let i = (#[trigger] candidate_ids@[k]).value() as int;
                    query_matches(q, self.entries@[i]) ==> found@.contains(i as usize) || call_ensures(
                        is_visible,
                        (&self.entries@[i],),
                        false,
                    )
                },
            decreases candidate_ids@.len() - ci,
        {
            if ci % 1024 == 0 && is_cancelled() {
                return NameSearchOutcome::Cancelled;
            }
            let index = candidate_ids[ci].as_usize();
            let entry = &self.entries[index];
            let visible = is_visible(entry);
            if visible {
                let text = &self.search_texts[index];
                let hit = matcher.matches_with_search_text(&parsed, entry, text.as_str());
                proof {
                    lemma_matcher_agrees(parsed, *entry, text@);
                }
                if hit {
                    let ghost old_found = found@;
                    found.push(index);
                    proof {
                        assert forall|x: usize| old_found.contains(x) implies found@.contains(x) by {
                            let m = choose|m: int| 0 <= m < old_found.len() && old_found[m] == x;
                            assert(found@[m] == x);
                        }
                        assert(found@[found@.len() - 1] == index);
                        assert(found@.contains(index));
                    }
                    if found.len() >= limit {
                        ci = ci + 1;
                        break;
                    }
                }
            }
            proof {
                if ci + 1 < candidate_ids@.len() {
                    assert(candidate_ids@[ci as int].value() < candidate_ids@[ci + 1].value());
                }
            }
            ci = ci + 1;
        }
        proof {
            assert forall|i: int|
                0 <= i < self@.len() && query_complete(stored_models(self@), i, parse_spec(query@))
                    && query_matches(parse_spec(query@), #[trigger] self@[i]) && (found@.len() < limit || (
                found@.len() > 0 && i < found@[found@.len() - 1])) implies found@.contains(i as usize)
                    || call_ensures(is_visible, (&self@[i],), false) by {
                assert(lists_id(candidate_ids@, i as nat));
                let k = choose|k: int| 0 <= k < candidate_ids@.len() && (#[trigger] candidate_ids@[k]).value() == i;
                assert(candidate_ids@[k].value() == i);
                if k >= ci {
                    assert(found@[found@.len() - 1] < candidate_ids@[ci as int].value());
                    if k > ci {
                        assert(candidate_ids@[ci as int].value() < candidate_ids@[k].value());
                    }
                }
            }
        }
        NameSearchOutcome::Matches(found)
    }
}

impl SearchIndex {
    /// Drops the entries at removed paths or below them and those the changed
    /// entries replace, adds the changed entries, sorts by path, then name, and
    /// rebuilds the search texts and candidate index.
    fn apply_update_batch_with_separator(&mut self, batch: &IndexUpdateBatch, changed_entries: Vec<IndexedEntry>, sep: char)
        requires
            candidate_build_fits(old(self)@ + changed_entries@, (u32::MAX - 1) as usize),
        ensures
            batch_outcome(old(self)@, crate::platform::views(batch.removed_paths@), changed_entries@, sep, final(self)@),
    {
        let ghost old_entries = self@;
        let ghost changed_view = changed_entries@;
        let ghost removed = crate::platform::views(batch.removed_paths@);
        let mut changed_keys = StrSet::new();
        let mut c: usize = 0;
        proof {
            assert(entry_paths(changed_entries@.take(0)) =~= Set::<Seq<char>>::empty());
        }
        while c < changed_entries.len()
            invariant
                c <= changed_entries@.len(),
                changed_keys.members() == entry_paths(changed_entries@.take(c as int)),
            decreases changed_entries@.len() - c,
        {
            let ghost before = changed_entries@.take(c as int);
            changed_keys.insert(changed_entries[c].path.clone());
            proof {
                let after = changed_entries@.take(c + 1);
                assert(entry_paths(after) =~= entry_paths(before).insert(changed_entries@[c as int].path@)) by {
                    assert forall|p: Seq<char>| entry_paths(after).contains(p) implies entry_paths(before).insert(
                        changed_entries@[c as int].path@,
                    ).contains(p) by {
                        let k = choose|k: int| 0 <= k < after.len() && (#[trigger] after[k]).path@ == p;
                        if k < c {
                            assert(before[k] == after[k]);
                        }
                    }
                    assert forall|p: Seq<char>| entry_paths(before).insert(changed_entries@[c as int].path@).contains(p)
                        implies entry_paths(after).contains(p) by {
                        if p == changed_entries@[c as int].path@ {
                            assert(after[c as int].path@ == p);
                        } else {
                            let k = choose|k: int| 0 <= k < before.len() && (#[trigger] before[k]).path@ == p;
                            assert(after[k] == before[k]);
                        }
                    }
                }
            }
            c = c + 1;
        }
        proof {
            assert(changed_entries@.take(changed_entries@.len() as int) =~= changed_entries@);
        }
        let ghost keep = survives_batch(removed, entry_paths(changed_view), sep);
        let mut kept: Vec<IndexedEntry> = Vec::new();
        let mut i: usize = 0;
        proof {
            reveal(Seq::filter);
            assert(self.entries@.take(0) =~= Seq::<IndexedEntry>::empty());
            assert(self.entries@.take(0).filter(keep) =~= Seq::<IndexedEntry>::empty());
        }
        while i < self.entries.len()
            invariant
                i <= self.entries@.len(),
                self.entries@ == old_entries,
                changed_keys.members() == entry_paths(changed_view),
                removed == crate::platform::views(batch.removed_paths@),
                keep == survives_batch(removed, entry_paths(changed_view), sep),
                kept@ == old_entries.take(i as int).filter(keep),
            decreases self.entries@.len() - i,
        {
            let e = &self.entries[i];
            let affected = path_is_affected(e.path.as_str(), &batch.removed_paths, sep);
            let replaced = changed_keys.contains(e.path.as_str());
            if !affected && !replaced {
                kept.push(e.duplicate());
            }
            proof {
                reveal(Seq::filter);
                assert(old_entries.take(i + 1).drop_last() =~= old_entries.take(i as int));
                assert(old_entries.take(i + 1).last() == old_entries[i as int]);
                assert(keep(old_entries[i as int]) == (!affected && !replaced));
            }
            i = i + 1;
        }
        proof {
            assert(old_entries.take(old_entries.len() as int) =~= old_entries);
        }
        let mut changed = changed_entries;
        kept.append(&mut changed);
        let sorted = sort_by_path_name(kept);
        proof {
            lemma_batch_fits(old_entries, changed_view, keep, sorted@);
        }
        *self = SearchIndex::from_entries(sorted);
    }

    /// Applies a watcher batch: entries at or below removed paths and those the
    /// changed entries replace leave, the changed entries come in, and the index
    /// is sorted by path, then name, and rebuilt. Which separator marks "below"
    /// is the platform's.
    pub fn apply_update_batch(&mut self, batch: &IndexUpdateBatch, changed_entries: Vec<IndexedEntry>)
        requires
            candidate_build_fits(old(self)@ + changed_entries@, (u32::MAX - 1) as usize),
        ensures
            batch_outcome(old(self)@, crate::platform::views(batch.removed_paths@), changed_entries@, '/', final(self)@)
                || batch_outcome(
                old(self)@,
                crate::platform::views(batch.removed_paths@),
                changed_entries@,
                '\\',
                final(self)@,
            ),
    {
        let sep = main_separator();
        self.apply_update_batch_with_separator(batch, changed_entries, sep);
    }

    /// Replaces every entry and rebuilds the search texts and candidate index.
    pub fn replace_entries(&mut self, entries: Vec<IndexedEntry>)
        requires
            candidate_build_fits(entries@, (u32::MAX - 1) as usize),
        ensures
            final(self)@ == entries@,
    {
        *self = SearchIndex::from_entries(entries);
    }
}

// ---------------------------------------------------------------------------
// Reusing unchanged entries on refresh
// ---------------------------------------------------------------------------

/// The position of the last entry with path `p`.
pub open spec fn last_with_path(s: Seq<IndexedEntry>, p: Seq<char>) -> Option<int>
    decreases s.len(),
{
    if s.len() == 0 {
        None
    } else if s.last().path@ == p {
        Some(s.len() - 1)
    } else {
        last_with_path(s.drop_last(), p)
    }
}

proof fn lemma_last_with_path(s: Seq<IndexedEntry>, p: Seq<char>)
    ensures
        match last_with_path(s, p) {
            Some(k) => 0 <= k < s.len() && s[k].path@ == p && forall|j: int| k < j < s.len() ==> s[j].path@ != p,
            None => forall|j: int| 0 <= j < s.len() ==> s[j].path@ != p,
        },
    decreases s.len(),
{
    if s.len() > 0 && s.last().path@ != p {
        lemma_last_with_path(s.drop_last(), p);
        assert forall|j: int| 0 <= j < s.len() - 1 implies s[j] == s.drop_last()[j] by {}
    }
}

/// A rescanned entry whose path, kind, root, modification time and size are
/// those of a held one.
pub open spec fn snapshot_metadata_matches(previous: IndexedEntry, scanned: IndexedEntry) -> bool {
    &&& previous.path@ == scanned.path@
    &&& previous.kind == scanned.kind
    &&& previous.root@ == scanned.root@
    &&& previous.modified_ms == scanned.modified_ms
    &&& previous.size_bytes == scanned.size_bytes
}

/// The entry a refresh keeps for `scanned`: the last held entry at its path
/// when the metadata is unchanged, else the scanned one.
pub open spec fn refreshed_entry(previous: Seq<IndexedEntry>, scanned: IndexedEntry) -> IndexedEntry {
    match last_with_path(previous, scanned.path@) {
        Some(k) => if snapshot_metadata_matches(previous[k], scanned) {
            previous[k]
        } else {
            scanned
        },
        None => scanned,
    }
}

fn metadata_matches(previous: &IndexedEntry, scanned: &IndexedEntry) -> (r: bool)
    ensures
        r == snapshot_metadata_matches(*previous, *scanned),
{
    let pp = chars_of(previous.path.as_str());
    let sp = chars_of(scanned.path.as_str());
    let pr = chars_of(previous.root.as_str());
    let sr = chars_of(scanned.root.as_str());
    chars_eq(pp.as_slice(), sp.as_slice()) && previous.kind == scanned.kind && chars_eq(pr.as_slice(), sr.as_slice())
        && previous.modified_ms == scanned.modified_ms && previous.size_bytes == scanned.size_bytes
}

impl SearchIndex {
    /// The position of the last held entry whose path is `path`.
    fn last_position_of(&self, path: &str) -> (r: Option<usize>)
        ensures
            match r {
                Some(k) => last_with_path(self@, path@) == Some(k as int),
                None => last_with_path(self@, path@) is None,
            },
    {
        proof {
            use_type_invariant(self);
            lemma_last_with_path(self@, path@);
        }
        let ids = self.compact_candidates.path_ids(path);
        let ghost n = self.entries@.len();
        let ghost models = stored_models(self.entries@);
        proof {
            // Every entry at `path` is listed.
            assert forall|j: int| 0 <= j < n && #[trigger] self.entries@[j].path@ == path@ implies exists|m: int|
                0 <= m < ids@.len() && ids@[m].value() == j by {
                lemma_entry_id_exists(j as nat);
                let id = choose|id: EntryId| #[trigger] id.value() == j as nat;
                assert(models[j].path == self.entries@[j].path@);
                assert(ids@.contains(id));
                let m = choose|m: int| 0 <= m < ids@.len() && ids@[m] == id;
                assert(ids@[m].value() == j);
            }
        }
        let p = chars_of(path);
        let mut k: usize = ids.len();
        while k > 0
            invariant
                k <= ids@.len(),
                p@ == path@,
                n == self.entries@.len(),
                models == stored_models(self.entries@),
                lists_exactly(ids@, n, |i: nat| lower(models[i as int].path) == lower(path@)),
                forall|m: int| k <= m < ids@.len() ==> self.entries@[(#[trigger] ids@[m]).value() as int].path@ != path@,
                forall|j: int| 0 <= j < n && #[trigger] self.entries@[j].path@ == path@ ==> exists|m: int|
                    0 <= m < ids@.len() && ids@[m].value() == j,
            decreases k,
        {
            let id = ids[k - 1];
            assert(ids@.contains(id));
            let index = id.as_usize();
            let q = chars_of(self.entries[index].path.as_str());
            if chars_eq(q.as_slice(), p.as_slice()) {
                proof {
                    assert forall|j: int| index < j < n implies self.entries@[j].path@ != path@ by {
                        if self.entries@[j].path@ == path@ {
                            let m = choose|m: int| 0 <= m < ids@.len() && ids@[m].value() == j;
                            if m <= k - 1 {
                                if m < k - 1 {
                                    assert(ids@[m].value() < ids@[k - 1].value());
                                }
                            }
                        }
                    }
                    lemma_last_with_path(self@, path@);
                    match last_with_path(self@, path@) {
                        Some(k0) => {
                            assert(k0 == index);
                        },
                        None => {
                            assert(self@[index as int].path@ == path@);
                        },
                    }
                }
                return Some(index);
            }
            k = k - 1;
        }
        proof {
            lemma_last_with_path(self@, path@);
            assert forall|j: int| 0 <= j < n implies self.entries@[j].path@ != path@ by {
                if self.entries@[j].path@ == path@ {
                    let m = choose|m: int| 0 <= m < ids@.len() && ids@[m].value() == j;
                }
            }
            if let Some(k0) = last_with_path(self@, path@) {
                assert(self.entries@[k0].path@ == path@);
            }
        }
        None
    }

    /// The scanned entries, each replaced by the last held entry at its path
    /// when their metadata agree.
    pub fn reuse_unchanged_entries(&self, scanned: Vec<IndexedEntry>) -> (r: Vec<IndexedEntry>)
        ensures
            r@.len() == scanned@.len(),
            forall|i: int| 0 <= i < scanned@.len() ==> #[trigger] r@[i] == refreshed_entry(self@, scanned@[i]),
    {
        let mut out: Vec<IndexedEntry> = Vec::new();
        let mut i: usize = 0;
        while i < scanned.len()
            invariant
                i <= scanned@.len(),
                out@.len() == i,
                forall|k: int| 0 <= k < i ==> #[trigger] out@[k] == refreshed_entry(self@, scanned@[k]),
            decreases scanned@.len() - i,
        {
            let entry = &scanned[i];
            let kept = match self.last_position_of(entry.path.as_str()) {
                Some(k) => {
                    proof {
                        use_type_invariant(self);
                        lemma_last_with_path(self@, entry.path@);
                    }
                    let previous = &self.entries[k];
                    if metadata_matches(previous, entry) {
                        previous.duplicate()
                    } else {
                        entry.duplicate()
                    }
                },
                None => entry.duplicate(),
            };
            out.push(kept);
            i = i + 1;
        }
        out
    }
}

/// The UTF-8 bytes of the search texts of the entries.
pub open spec fn search_text_bytes(s: Seq<IndexedEntry>) -> nat {
    total(s, |e: IndexedEntry| text_bytes(entry_search_text_spec(e)))
}

proof fn lemma_total_prefix(s: Seq<IndexedEntry>, i: int, f: spec_fn(IndexedEntry) -> nat)
    requires
        0 <= i <= s.len(),
    ensures
        total(s.take(i), f) <= total(s, f),
        i < s.len() ==> total(s.take(i), f) + f(s[i]) <= total(s, f),
{
    lemma_total_concat(s.take(i), s.skip(i), f);
    assert(s.take(i) + s.skip(i) =~= s);
    if i < s.len() {
        lemma_total_concat(seq![s[i]], s.skip(i + 1), f);
        assert(seq![s[i]] + s.skip(i + 1) =~= s.skip(i));
        assert(seq![s[i]].drop_last() =~= Seq::<IndexedEntry>::empty());
    }
}

/// The UTF-8 bytes of an entry's strings.
fn entry_string_bytes(e: &IndexedEntry) -> (r: usize)
    requires
        entry_bytes(*e) <= u32::MAX,
    ensures
        r == entry_bytes(*e),
{
    let path = chars_of(e.path.as_str());
    let name = chars_of(e.name.as_str());
    let parent = chars_of(e.parent.as_str());
    let root = chars_of(e.root.as_str());
    let text = chars_of(e.search_text.as_str());
    let extension = match &e.extension {
        Some(x) => {
            let c = chars_of(x.as_str());
            text_byte_len(c.as_slice())
        },
        None => 0,
    };
    text_byte_len(path.as_slice()) + text_byte_len(name.as_slice()) + text_byte_len(parent.as_slice()) + extension
        + text_byte_len(root.as_slice()) + text_byte_len(text.as_slice())
}

impl SearchIndex {
    /// The entries, the bytes their structs and strings take, and the bytes of
    /// the cached search texts.
    pub fn memory_estimate(&self) -> (r: SearchIndexMemoryEstimate)
        requires
            search_text_bytes(self@) <= usize::MAX,
        ensures
            r.entry_count == self@.len(),
            r.entry_struct_bytes == saturate((self@.len() * size_of::<IndexedEntry>()) as int),
            r.entry_string_bytes == entries_bytes(self@),
            r.cached_search_text_bytes == search_text_bytes(self@),
    {
        proof {
            use_type_invariant(self);
            lemma_sizes_are_totals(self@);
        }
        let ghost bytes = |e: IndexedEntry| entry_bytes(e);
        let ghost texts = |e: IndexedEntry| text_bytes(entry_search_text_spec(e));
        let n = self.entries.len();
        let mut string_bytes: usize = 0;
        let mut text_total: usize = 0;
        let mut i: usize = 0;
        proof {
            assert(self.entries@.take(0) =~= Seq::<IndexedEntry>::empty());
        }
        while i < n
            invariant
                i <= n,
                n == self.entries@.len(),
                self.search_texts@.len() == n,
                forall|k: int| 0 <= k < n ==> #[trigger] self.search_texts@[k]@ == entry_search_text_spec(self.entries@[k]),
                entries_bytes(self.entries@) == total(self.entries@, bytes),
                total(self.entries@, bytes) <= u32::MAX,
                total(self.entries@, texts) <= usize::MAX,
                bytes == (|e: IndexedEntry| entry_bytes(e)),
                texts == (|e: IndexedEntry| text_bytes(entry_search_text_spec(e))),
                string_bytes == total(self.entries@.take(i as int), bytes),
                text_total == total(self.entries@.take(i as int), texts),
            decreases n - i,
        {
            proof {
                lemma_total_prefix(self.entries@, i as int, bytes);
                lemma_total_prefix(self.entries@, i as int, texts);
                assert(self.entries@.take(i + 1).drop_last() =~= self.entries@.take(i as int));
            }
            let e = &self.entries[i];
            string_bytes = string_bytes + entry_string_bytes(e);
            let t = chars_of(self.search_texts[i].as_str());
            text_total = text_total + text_byte_len(t.as_slice());
            i = i + 1;
        }
        proof {
            assert(self.entries@.take(n as int) =~= self.entries@);
        }
        SearchIndexMemoryEstimate {
            entry_count: n,
            entry_struct_bytes: saturating_mul(n, core::mem::size_of::<IndexedEntry>()),
            entry_string_bytes: string_bytes,
            cached_search_text_bytes: text_total,
        }
    }
}

/// The UTF-8 bytes of an entry's strings, saturating.
fn entry_string_bytes_saturating(e: &IndexedEntry) -> (r: usize)
    ensures
        r == saturate(entry_bytes(*e) as int),
{
    let path = chars_of(e.path.as_str());
    let name = chars_of(e.name.as_str());
    let parent = chars_of(e.parent.as_str());
    let root = chars_of(e.root.as_str());
    let text = chars_of(e.search_text.as_str());
    let extension = match &e.extension {
        Some(x) => {
            let c = chars_of(x.as_str());
            text_byte_len(c.as_slice())
        },
        None => 0,
    };
    text_byte_len(path.as_slice()).saturating_add(text_byte_len(name.as_slice())).saturating_add(
        text_byte_len(parent.as_slice()),
    ).saturating_add(extension).saturating_add(text_byte_len(root.as_slice())).saturating_add(
        text_byte_len(text.as_slice()),
    )
}

impl SearchIndex {
    /// Whether an index can be built from `entries` without passing the
    /// candidate index's 32-bit limits.
    pub fn build_fits(entries: &[IndexedEntry]) -> (r: bool)
        ensures
            r == candidate_build_fits(entries@, (u32::MAX - 1) as usize),
    {
        proof {
            lemma_sizes_are_totals(entries@);
        }
        let ghost bytes = |e: IndexedEntry| entry_bytes(e);
        let ghost names = |e: IndexedEntry| e.name@.len();
        let ghost paths = |e: IndexedEntry| e.path@.len();
        let n = entries.len();
        if n > u32::MAX as usize {
            return false;
        }
        let mut byte_total: usize = 0;
        let mut name_total: usize = 0;
        let mut path_total: usize = 0;
        let mut depths_fit = true;
        let mut i: usize = 0;
        proof {
            assert(entries@.take(0) =~= Seq::<IndexedEntry>::empty());
        }
        while i < n
            invariant
                i <= n,
                n == entries@.len(),
                bytes == (|e: IndexedEntry| entry_bytes(e)),
                names == (|e: IndexedEntry| e.name@.len()),
                paths == (|e: IndexedEntry| e.path@.len()),
                byte_total == saturate(total(entries@.take(i as int), bytes) as int),
                name_total == saturate(total(entries@.take(i as int), names) as int),
                path_total == saturate(total(entries@.take(i as int), paths) as int),
                depths_fit == forall|k: int| 0 <= k < i ==> #[trigger] entries@[k].depth <= u32::MAX,
            decreases n - i,
        {
            proof {
                assert(entries@.take(i + 1).drop_last() =~= entries@.take(i as int));
            }
            let e = &entries[i];
            byte_total = byte_total.saturating_add(entry_string_bytes_saturating(e));
            let nc = chars_of(e.name.as_str());
            name_total = name_total.saturating_add(nc.len());
            let pc = chars_of(e.path.as_str());
            path_total = path_total.saturating_add(pc.len());
            if e.depth > u32::MAX as usize {
                depths_fit = false;
            }
            i = i + 1;
        }
        proof {
            assert(entries@.take(n as int) =~= entries@);
        }
        let names_fit = name_total <= (u32::MAX / 15) as usize;
        depths_fit && byte_total <= (u32::MAX - 1) as usize && names_fit && path_total < (u32::MAX - 1) as usize
    }
}

impl Default for SearchIndex {
    fn default() -> (r: Self)
        ensures
            r@ == Seq::<IndexedEntry>::empty(),
    {
        let compact_candidates = CompactCandidateIndex::default();
        let entries: Vec<IndexedEntry> = Vec::new();
        assert(stored_models(entries@) =~= compact_candidates@);
        SearchIndex { entries, search_texts: Vec::new(), compact_candidates }
    }
}

} // verus!
