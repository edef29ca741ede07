//! What a runtime index delta commits, and the tombstones that hide removed
//! paths and removed directory subtrees from the baseline.

use vstd::prelude::*;
use crate::compact_index::{last_index_of, lemma_prefix_block, lemma_prefix_not_below};
use crate::index_entry::{
    normalize_path_key_for_mode, normalize_path_text_key_for_mode, path_key_spec, IndexedEntry, IndexedEntryKind,
    PathComparisonMode,
};
use crate::compact_index::{keys_view, lemma_occ_lt_transitive, occ_lt, occ_sorted, sort_occ};
use crate::str_map::{lemma_index_of_ascending, pair_keys, pair_values, StrMap};
use crate::paths::{set_add_path, set_add_paths, sorted_paths, strings_view, PathSet};
use crate::index::{query_matches, NameSearchOutcome, SearchIndex};
use crate::file_query::{parse_spec, QueryModel};
use crate::compact_index::{candidate_build_fits, query_complete, query_has_filters, stored_models};
use crate::text::{
    chars_eq, chars_of, has_prefix, lemma_seq_lt_irreflexive, lemma_seq_lt_total, lemma_seq_lt_transitive,
    lex_less, seq_lt, starts_with_chars, string_from_chars,
};

verus! {

broadcast use vstd::string::group_string_axioms;

/// The entries upserted and the paths removed at one generation.
#[derive(Debug, Clone, PartialEq, Eq)]
pub struct CommittedIndexDelta {
    pub generation: u64,
    pub upserts: Vec<IndexedEntry>,
    pub removals: Vec<String>,
}

// ---------------------------------------------------------------------------
// Sorted string sets
// ---------------------------------------------------------------------------

/// The texts increase strictly.
pub open spec fn ascending(s: Seq<Seq<char>>) -> bool {
    forall|i: int, j: int| 0 <= i < j < s.len() ==> seq_lt(#[trigger] s[i], #[trigger] s[j])
}

/// A set of strings kept in increasing order, found by binary search.
#[derive(Debug)]
pub struct StrSet {
    items: Vec<String>,
}

impl StrSet {
    #[verifier::type_invariant]
    spec fn inv(&self) -> bool {
        ascending(strings_view(self.items@))
    }

    /// The members, in increasing order.
    pub closed spec fn listed(&self) -> Seq<Seq<char>> {
        strings_view(self.items@)
    }

    /// The members.
    pub open spec fn members(&self) -> Set<Seq<char>> {
        self.listed().to_set()
    }

    pub fn new() -> (r: Self)
        ensures
            r.members() == Set::<Seq<char>>::empty(),
    {
        let r = StrSet { items: Vec::new() };
        assert(r.listed() =~= Seq::<Seq<char>>::empty());
        assert(r.members() =~= Set::<Seq<char>>::empty());
        r
    }

    pub fn len(&self) -> (r: usize)
        ensures
            r == self.members().len(),
    {
        proof {
            use_type_invariant(self);
            lemma_ascending_distinct(self.listed());
            self.listed().unique_seq_to_set();
        }
        self.items.len()
    }

    /// The number of members before the first that does not sort below `key`.
    fn lower_bound(&self, key: &[char]) -> (r: usize)
        ensures
            r <= self.listed().len(),
            forall|i: int| 0 <= i < r ==> seq_lt(#[trigger] self.listed()[i], key@),
            forall|i: int| r <= i < self.listed().len() ==> !seq_lt(#[trigger] self.listed()[i], key@),
    {
        proof {
            use_type_invariant(self);
        }
        let ghost s = self.listed();
        let mut lo: usize = 0;
        let mut hi: usize = self.items.len();
        while lo < hi
            invariant
                lo <= hi <= s.len(),
                s == self.listed(),
                ascending(s),
                forall|i: int| 0 <= i < lo ==> seq_lt(#[trigger] s[i], key@),
                forall|i: int| hi <= i < s.len() ==> !seq_lt(#[trigger] s[i], key@),
            decreases hi - lo,
        {
            let mid = lo + (hi - lo) / 2;
            let c = chars_of(self.items[mid].as_str());
            assert(c@ == s[mid as int]);
            if lex_less(c.as_slice(), key) {
                proof {
                    assert forall|i: int| 0 <= i <= mid implies seq_lt(#[trigger] s[i], key@) by {
                        if i < mid {
                            lemma_seq_lt_transitive(s[i], s[mid as int], key@);
                        }
                    }
                }
                lo = mid + 1;
            } else {
                proof {
                    assert forall|i: int| mid <= i < s.len() implies !seq_lt(#[trigger] s[i], key@) by {
                        if i > mid && seq_lt(s[i], key@) {
                            lemma_seq_lt_transitive(s[mid as int], s[i], key@);
                        }
                    }
                }
                hi = mid;
            }
        }
        lo
    }

    /// Whether the member at `pos`, if any, is `key`; then no other member is.
    fn found_at(&self, pos: usize, key: &[char]) -> (r: bool)
        requires
            pos <= self.listed().len(),
            forall|i: int| 0 <= i < pos ==> seq_lt(#[trigger] self.listed()[i], key@),
            forall|i: int| pos <= i < self.listed().len() ==> !seq_lt(#[trigger] self.listed()[i], key@),
        ensures
            r == (pos < self.listed().len() && self.listed()[pos as int] == key@),
            r == self.members().contains(key@),
    {
        proof {
            use_type_invariant(self);
        }
        let ghost s = self.listed();
        let r = if pos < self.items.len() {
            let c = chars_of(self.items[pos].as_str());
            chars_eq(c.as_slice(), key)
        } else {
            false
        };
        proof {
            if s.to_set().contains(key@) {
                let k = choose|k: int| 0 <= k < s.len() && s[k] == key@;
                if k < pos {
                    lemma_seq_lt_irreflexive(key@);
                } else if k > pos {
                    assert(seq_lt(s[pos as int], s[k]));
                    lemma_seq_lt_total(s[pos as int], key@);
                    if s[pos as int] != key@ {
                        assert(seq_lt(key@, s[pos as int]));
                        lemma_seq_lt_transitive(key@, s[pos as int], key@);
                        lemma_seq_lt_irreflexive(key@);
                    }
                }
            }
            if r {
                assert(s.to_set().contains(s[pos as int]));
            }
        }
        r
    }

    pub fn contains(&self, key: &str) -> (r: bool)
        ensures
            r == self.members().contains(key@),
    {
        let k = chars_of(key);
        let pos = self.lower_bound(k.as_slice());
        self.found_at(pos, k.as_slice())
    }

    /// Adds `key`; true when it was not a member.
    pub fn insert(&mut self, key: String) -> (r: bool)
        ensures
            final(self).members() == old(self).members().insert(key@),
            r == !old(self).members().contains(key@),
    {
        proof {
            use_type_invariant(&*self);
        }
        let k = chars_of(key.as_str());
        let pos = self.lower_bound(k.as_slice());
        if self.found_at(pos, k.as_slice()) {
            proof {
                assert(self.members().insert(key@) =~= self.members());
            }
            return false;
        }
        let ghost s = self.listed();
        let ghost kv = key@;
        let ghost new_s = s.insert(pos as int, kv);
        proof {
            assert forall|i: int, j: int| 0 <= i < j < new_s.len() implies seq_lt(#[trigger] new_s[i], #[trigger] new_s[j]) by {
                if pos < s.len() {
                    lemma_seq_lt_total(s[pos as int], kv);
                }
                if j < pos {
                } else if j == pos {
                } else if i < pos {
                    assert(seq_lt(s[i], kv));
                    assert(seq_lt(kv, s[pos as int]));
                    if j - 1 > pos {
                        lemma_seq_lt_transitive(kv, s[pos as int], s[j - 1]);
                    }
                    lemma_seq_lt_transitive(s[i], kv, s[j - 1]);
                } else if i == pos {
                    assert(seq_lt(kv, s[pos as int]));
                    if j - 1 > pos {
                        lemma_seq_lt_transitive(kv, s[pos as int], s[j - 1]);
                    }
                } else {
                    assert(seq_lt(s[i - 1], s[j - 1]));
                }
            }
        }
        let mut taken = StrSet::new();
        std::mem::swap(&mut taken, self);
        let StrSet { mut items } = taken;
        items.insert(pos, key);
        proof {
            assert(strings_view(items@) =~= new_s);
        }
        *self = StrSet { items };
        proof {
            assert(new_s.to_set() =~= s.to_set().insert(kv)) by {
                assert forall|x: Seq<char>| new_s.to_set().contains(x) implies s.to_set().insert(kv).contains(x) by {
                    let m = choose|m: int| 0 <= m < new_s.len() && new_s[m] == x;
                    if m < pos {
                        assert(s[m] == x);
                    } else if m > pos {
                        assert(s[m - 1] == x);
                    }
                }
                assert forall|x: Seq<char>| s.to_set().insert(kv).contains(x) implies new_s.to_set().contains(x) by {
                    if x == kv {
                        assert(new_s[pos as int] == x);
                    } else {
                        let m = choose|m: int| 0 <= m < s.len() && s[m] == x;
                        if m < pos {
                            assert(new_s[m] == x);
                        } else {
                            assert(new_s[m + 1] == x);
                        }
                    }
                }
            }
        }
        true
    }

    /// Removes the member at `pos`.
    fn remove_at(&mut self, pos: usize)
        requires
            pos < old(self).listed().len(),
        ensures
            final(self).listed() == old(self).listed().remove(pos as int),
    {
        proof {
            use_type_invariant(&*self);
        }
        let ghost s = self.listed();
        let ghost new_s = s.remove(pos as int);
        proof {
            assert forall|i: int, j: int| 0 <= i < j < new_s.len() implies seq_lt(#[trigger] new_s[i], #[trigger] new_s[j]) by {
                if j < pos {
                } else if i < pos {
                    assert(seq_lt(s[i], s[j + 1]));
                } else {
                    assert(seq_lt(s[i + 1], s[j + 1]));
                }
            }
        }
        let mut taken = StrSet::new();
        std::mem::swap(&mut taken, self);
        let StrSet { mut items } = taken;
        items.remove(pos);
        proof {
            assert(strings_view(items@) =~= new_s);
        }
        *self = StrSet { items };
    }

    /// Removes `key`; true when it was a member.
    pub fn remove(&mut self, key: &str) -> (r: bool)
        ensures
            final(self).members() == old(self).members().remove(key@),
            r == old(self).members().contains(key@),
    {
        proof {
            use_type_invariant(&*self);
            lemma_ascending_distinct(self.listed());
        }
        let k = chars_of(key);
        let pos = self.lower_bound(k.as_slice());
        if !self.found_at(pos, k.as_slice()) {
            proof {
                assert(self.members().remove(key@) =~= self.members());
            }
            return false;
        }
        let ghost s = self.listed();
        self.remove_at(pos);
        proof {
            let new_s = s.remove(pos as int);
            assert(new_s.to_set() =~= s.to_set().remove(key@)) by {
                assert forall|x: Seq<char>| new_s.to_set().contains(x) implies s.to_set().remove(key@).contains(x) by {
                    let m = choose|m: int| 0 <= m < new_s.len() && new_s[m] == x;
                    if m < pos {
                        assert(s[m] == x);
                        assert(s[m] != s[pos as int]);
                    } else {
                        assert(s[m + 1] == x);
                        assert(s[m + 1] != s[pos as int]);
                    }
                }
                assert forall|x: Seq<char>| s.to_set().remove(key@).contains(x) implies new_s.to_set().contains(x) by {
                    let m = choose|m: int| 0 <= m < s.len() && s[m] == x;
                    if m < pos {
                        assert(new_s[m] == x);
                    } else {
                        assert(m != pos);
                        assert(new_s[m - 1] == x);
                    }
                }
            }
        }
        true
    }

    /// Removes every member that starts with `prefix`.
    pub fn remove_prefixed(&mut self, prefix: &str)
        ensures
            final(self).members() == old(self).members().filter(|x: Seq<char>| !has_prefix(x, prefix@)),
    {
        proof {
            use_type_invariant(&*self);
        }
        let p = chars_of(prefix);
        let pos = self.lower_bound(p.as_slice());
        let ghost s0 = self.listed();
        let ghost target = s0.to_set().filter(|x: Seq<char>| !has_prefix(x, prefix@));
        proof {
            assert forall|i: int| 0 <= i < pos implies !has_prefix(#[trigger] s0[i], prefix@) by {
                if has_prefix(s0[i], prefix@) {
                    lemma_prefix_not_below(s0[i], prefix@);
                }
            }
        }
        loop
            invariant
                pos <= self.listed().len(),
                p@ == prefix@,
                self.listed().take(pos as int) == s0.take(pos as int),
                forall|i: int| 0 <= i < pos ==> !has_prefix(#[trigger] self.listed()[i], prefix@),
                forall|i: int| pos <= i < self.listed().len() ==> !seq_lt(#[trigger] self.listed()[i], prefix@),
                self.listed().to_set().filter(|x: Seq<char>| !has_prefix(x, prefix@)) == target,
            ensures
                forall|i: int| 0 <= i < self.listed().len() ==> !has_prefix(#[trigger] self.listed()[i], prefix@),
                self.listed().to_set().filter(|x: Seq<char>| !has_prefix(x, prefix@)) == target,
            decreases self.listed().len(),
        {
            proof {
                use_type_invariant(&*self);
            }
            let ghost s = self.listed();
            if pos >= self.items.len() {
                break;
            }
            let c = chars_of(self.items[pos].as_str());
            assert(c@ == s[pos as int]);
            if !starts_with_chars(c.as_slice(), p.as_slice()) {
                proof {
                    assert forall|i: int| pos < i < s.len() implies !has_prefix(#[trigger] s[i], prefix@) by {
                        if has_prefix(s[i], prefix@) {
                            lemma_prefix_block(s[pos as int], s[i], prefix@);
                        }
                    }
                }
                break;
            }
            self.remove_at(pos);
            proof {
                let t = self.listed();
                assert(t =~= s.remove(pos as int));
                assert(t.take(pos as int) =~= s.take(pos as int));
                assert(t.to_set().filter(|x: Seq<char>| !has_prefix(x, prefix@)) =~= s.to_set().filter(
                    |x: Seq<char>| !has_prefix(x, prefix@),
                )) by {
                    assert forall|x: Seq<char>| #[trigger] t.to_set().contains(x) && !has_prefix(x, prefix@) implies s.to_set().contains(x) by {
                        let m = choose|m: int| 0 <= m < t.len() && t[m] == x;
                        if m < pos {
                            assert(s[m] == x);
                        } else {
                            assert(s[m + 1] == x);
                        }
                    }
                    assert forall|x: Seq<char>| #[trigger] s.to_set().contains(x) && !has_prefix(x, prefix@) implies t.to_set().contains(x) by {
                        let m = choose|m: int| 0 <= m < s.len() && s[m] == x;
                        if m < pos {
                            assert(t[m] == x);
                        } else if m > pos {
                            assert(t[m - 1] == x);
                        }
                    }
                }
            }
        }
        proof {
            use_type_invariant(&*self);
            let s = self.listed();
            assert(s.to_set().filter(|x: Seq<char>| !has_prefix(x, prefix@)) =~= s.to_set()) by {
                assert forall|x: Seq<char>| s.to_set().contains(x) implies !has_prefix(x, prefix@) by {
                    let m = choose|m: int| 0 <= m < s.len() && s[m] == x;
                    assert(!has_prefix(s[m], prefix@));
                }
            }
        }
    }

    pub fn clear(&mut self)
        ensures
            final(self).members() == Set::<Seq<char>>::empty(),
    {
        *self = StrSet::new();
    }
}

pub proof fn lemma_ascending_distinct(s: Seq<Seq<char>>)
    requires
        ascending(s),
    ensures
        s.no_duplicates(),
{
    assert forall|i: int, j: int| 0 <= i < s.len() && 0 <= j < s.len() && i != j implies s[i] != s[j] by {
        if i < j {
            assert(seq_lt(s[i], s[j]));
        } else {
            assert(seq_lt(s[j], s[i]));
        }
        lemma_seq_lt_irreflexive(s[i]);
    }
}

// ---------------------------------------------------------------------------
// Tombstones
// ---------------------------------------------------------------------------

/// The parent of a path key: the text before its last `/`, the root for a
/// top-level path, and none for the root or a key without `/`.
pub open spec fn parent_key(p: Seq<char>) -> Option<Seq<char>> {
    match last_index_of(p, '/') {
        None => None,
        Some(k) => if k == 0 {
            if p == seq!['/'] {
                None
            } else {
                Some(seq!['/'])
            }
        } else {
            Some(p.take(k))
        },
    }
}

proof fn lemma_last_index(p: Seq<char>, c: char)
    ensures
        last_index_of(p, c) matches Some(k) ==> 0 <= k < p.len() && p[k] == c && forall|j: int|
            k < j < p.len() ==> p[j] != c,
        last_index_of(p, c) is None ==> forall|j: int| 0 <= j < p.len() ==> p[j] != c,
    decreases p.len(),
{
    if exists|i: int| 0 <= i < p.len() && p[i] == c {
        if p.last() == c {
            let k = p.len() - 1;
            assert(0 <= k < p.len() && p[k] == c && forall|j: int| k < j < p.len() ==> p[j] != c);
        } else {
            let i = choose|i: int| 0 <= i < p.len() && p[i] == c;
            assert(p.drop_last()[i] == c);
            lemma_last_index(p.drop_last(), c);
            let k = last_index_of(p.drop_last(), c)->0;
            assert(0 <= k < p.len() && p[k] == c && forall|j: int| k < j < p.len() ==> p[j] != c) by {
                assert forall|j: int| k < j < p.len() implies p[j] != c by {
                    if j < p.len() - 1 {
                        assert(p.drop_last()[j] == p[j]);
                    }
                }
            }
        }
    }
}

proof fn lemma_parent_shorter(p: Seq<char>)
    ensures
        parent_key(p) matches Some(q) ==> q.len() < p.len() && q.len() > 0,
{
    lemma_last_index(p, '/');
    if let Some(k) = last_index_of(p, '/') {
        if k == 0 && p != seq!['/'] {
            if p.len() == 1 {
                assert(p =~= seq!['/']);
            }
        }
    }
}

/// A directory tombstone hides `key`: `key` or one of its ancestors is one.
pub open spec fn dir_covers(dirs: Set<Seq<char>>, key: Seq<char>) -> bool
    decreases key.len(),
{
    dirs.contains(key) || match parent_key(key) {
        Some(p) => if p.len() < key.len() {
            dir_covers(dirs, p)
        } else {
            false
        },
        None => false,
    }
}

/// How many keys a lookup probes: `key`, then its ancestors, until one is a
/// directory tombstone or none is left.
pub open spec fn lookup_probes(dirs: Set<Seq<char>>, key: Seq<char>) -> nat
    decreases key.len(),
{
    if dirs.contains(key) {
        1
    } else {
        match parent_key(key) {
            Some(p) => if p.len() < key.len() {
                1 + lookup_probes(dirs, p)
            } else {
                1
            },
            None => 1,
        }
    }
}

/// The number of `/` in a key.
pub open spec fn slash_count(p: Seq<char>) -> nat
    decreases p.len(),
{
    if p.len() == 0 {
        0
    } else {
        slash_count(p.drop_last()) + if p.last() == '/' { 1nat } else { 0nat }
    }
}

proof fn lemma_slash_count_take(p: Seq<char>, k: int)
    requires
        0 <= k < p.len(),
        p[k] == '/',
    ensures
        slash_count(p.take(k)) + 1 <= slash_count(p),
    decreases p.len(),
{
    if k == p.len() - 1 {
        assert(p.drop_last() =~= p.take(k));
    } else {
        assert(p.drop_last().take(k) =~= p.take(k));
        lemma_slash_count_take(p.drop_last(), k);
    }
}

/// Law: a lookup probes at most one key more than the key has separators, however
/// many tombstones there are.
pub proof fn lemma_lookup_probes_bounded_by_depth(dirs: Set<Seq<char>>, key: Seq<char>)
    ensures
        lookup_probes(dirs, key) <= slash_count(key) + 1,
    decreases key.len(),
{
    lemma_parent_shorter(key);
    lemma_last_index(key, '/');
    if !dirs.contains(key) {
        if let Some(q) = parent_key(key) {
            lemma_lookup_probes_bounded_by_depth(dirs, q);
            let k = last_index_of(key, '/')->0;
            if k == 0 {
                assert(slash_count(seq!['/']) == 1) by {
                    reveal_with_fuel(slash_count, 2);
                    assert(seq!['/'].drop_last() =~= Seq::<char>::empty());
                }
                assert(key[0] == '/');
                assert(slash_count(key.take(1)) == 1) by {
                    assert(key.take(1) =~= seq!['/']);
                }
                lemma_slash_take_monotone(key, 1);
                lemma_last_index(seq!['/'], '/');
                assert(parent_key(seq!['/']) is None);
                assert(lookup_probes(dirs, seq!['/']) == 1);
            } else {
                lemma_slash_count_take(key, k);
            }
        }
    }
}

proof fn lemma_slash_take_monotone(p: Seq<char>, k: int)
    requires
        0 <= k <= p.len(),
    ensures
        slash_count(p.take(k)) <= slash_count(p),
    decreases p.len(),
{
    if k < p.len() {
        assert(p.drop_last().take(k) =~= p.take(k));
        lemma_slash_take_monotone(p.drop_last(), k);
    } else {
        assert(p.take(k) =~= p);
    }
}

/// The prefix every descendant of `key` starts with.
pub open spec fn descendant_prefix(key: Seq<char>) -> Seq<char> {
    if key.len() > 0 && key.last() == '/' {
        key
    } else {
        key.push('/')
    }
}

/// `s` without `key` and without anything below it.
pub open spec fn without_scope(s: Set<Seq<char>>, key: Seq<char>) -> Set<Seq<char>> {
    s.remove(key).filter(|x: Seq<char>| !has_prefix(x, descendant_prefix(key)))
}

fn parent_of(p: &Vec<char>) -> (r: Option<Vec<char>>)
    ensures
        match r {
            Some(q) => parent_key(p@) == Some(q@),
            None => parent_key(p@) is None,
        },
{
    match crate::compact_index::rfind_char(p.as_slice(), '/') {
        None => None,
        Some(k) => {
            if k == 0 {
                if p.len() == 1 {
                    assert(p@ =~= seq!['/']);
                    None
                } else {
                    let mut root: Vec<char> = Vec::new();
                    root.push('/');
                    proof {
                        assert(p@ != seq!['/']);
                        assert(root@ =~= seq!['/']);
                    }
                    Some(root)
                }
            } else {
                let mut out: Vec<char> = Vec::new();
                let mut i: usize = 0;
                while i < k
                    invariant
                        i <= k < p@.len(),
                        out@ == p@.take(i as int),
                    decreases k - i,
                {
                    out.push(p[i]);
                    proof {
                        assert(p@.take(i + 1) =~= p@.take(i as int).push(p@[i as int]));
                    }
                    i = i + 1;
                }
                Some(out)
            }
        },
    }
}

fn descendant_prefix_of(key: &str) -> (r: String)
    ensures
        r@ == descendant_prefix(key@),
{
    let mut k = chars_of(key);
    let n = k.len();
    if n > 0 && k[n - 1] == '/' {
        return string_from_chars(k.as_slice());
    }
    k.push('/');
    string_from_chars(k.as_slice())
}

/// Removed paths (exact tombstones) and removed subtrees (directory tombstones);
/// no tombstone lies below a directory tombstone.
#[derive(Debug)]
pub struct PathTombstones {
    exact: StrSet,
    directories: StrSet,
}

impl Default for PathTombstones {
    fn default() -> (r: Self)
        ensures
            r.exact_set() == Set::<Seq<char>>::empty(),
            r.directory_set() == Set::<Seq<char>>::empty(),
    {
        PathTombstones { exact: StrSet::new(), directories: StrSet::new() }
    }
}

impl PathTombstones {
    pub closed spec fn exact_set(&self) -> Set<Seq<char>> {
        self.exact.members()
    }

    pub closed spec fn directory_set(&self) -> Set<Seq<char>> {
        self.directories.members()
    }

    /// Whether a directory tombstone hides `key`, and how many keys were probed.
    pub fn directory_lookup(&self, key: &str) -> (r: (bool, usize))
        ensures
            r.0 == dir_covers(self.directory_set(), key@),
            r.1 == lookup_probes(self.directory_set(), key@),
    {
        let ghost dirs = self.directory_set();
        let mut current = chars_of(key);
        let start_len = current.len();
        assert(key@.len() == start_len);
        let mut probes: usize = 0;
        loop
            invariant
                dirs == self.directory_set(),
                dir_covers(dirs, current@) == dir_covers(dirs, key@),
                probes + lookup_probes(dirs, current@) == lookup_probes(dirs, key@),
                current@.len() <= key@.len() <= usize::MAX,
                probes <= key@.len() - current@.len(),
                current@.len() > 0 || probes == 0,
            decreases current@.len(),
        {
            proof {
                lemma_parent_shorter(current@);
            }
            probes = probes + 1;
            let text = string_from_chars(current.as_slice());
            if self.directories.contains(text.as_str()) {
                return (true, probes);
            }
            match parent_of(&current) {
                Some(p) => {
                    current = p;
                },
                None => {
                    return (false, probes);
                },
            }
        }
    }

    /// Whether a directory tombstone hides `key`.
    pub fn directory_ancestor_contains(&self, key: &str) -> (r: bool)
        ensures
            r == dir_covers(self.directory_set(), key@),
    {
        self.directory_lookup(key).0
    }

    /// Records a removed path, unless a directory tombstone already hides it.
    pub fn insert_exact(&mut self, key: String)
        ensures
            final(self).exact_set() == (if dir_covers(old(self).directory_set(), key@) {
                old(self).exact_set()
            } else {
                old(self).exact_set().insert(key@)
            }),
            final(self).directory_set() == old(self).directory_set(),
    {
        if !self.directory_ancestor_contains(key.as_str()) {
            self.exact.insert(key);
        }
    }

    /// Records a removed subtree, unless one already hides it; the tombstones
    /// below it give way to it.
    pub fn insert_directory(&mut self, key: String)
        ensures
            dir_covers(old(self).directory_set(), key@) ==> final(self).exact_set() == old(self).exact_set()
                && final(self).directory_set() == old(self).directory_set(),
            !dir_covers(old(self).directory_set(), key@) ==> final(self).exact_set() == without_scope(
                old(self).exact_set(),
                key@,
            ) && final(self).directory_set() == without_scope(old(self).directory_set(), key@).insert(key@),
    {
        if self.directory_ancestor_contains(key.as_str()) {
            return;
        }
        let prefix = descendant_prefix_of(key.as_str());
        let ghost e0 = self.exact_set();
        let ghost d0 = self.directory_set();
        self.exact.remove(key.as_str());
        self.exact.remove_prefixed(prefix.as_str());
        self.directories.remove(key.as_str());
        self.directories.remove_prefixed(prefix.as_str());
        self.directories.insert(key);
        proof {
            assert(self.exact_set() =~= without_scope(e0, key@));
            assert(self.directory_set() =~= without_scope(d0, key@).insert(key@));
        }
    }

    pub fn remove_exact(&mut self, key: &str)
        ensures
            final(self).exact_set() == old(self).exact_set().remove(key@),
            final(self).directory_set() == old(self).directory_set(),
    {
        self.exact.remove(key);
    }

    /// Whether `key` is removed: an exact tombstone, or below a directory one.
    pub fn contains(&self, key: &str) -> (r: bool)
        ensures
            r == (self.exact_set().contains(key@) || dir_covers(self.directory_set(), key@)),
    {
        self.exact.contains(key) || self.directory_ancestor_contains(key)
    }

    pub fn contains_directory(&self, key: &str) -> (r: bool)
        ensures
            r == self.directory_set().contains(key@),
    {
        self.directories.contains(key)
    }

    /// The number of tombstones, saturating at `usize::MAX`.
    pub fn len(&self) -> (r: usize)
        ensures
            r == (if self.exact_set().len() + self.directory_set().len() > usize::MAX {
                usize::MAX as int
            } else {
                (self.exact_set().len() + self.directory_set().len()) as int
            }),
    {
        self.exact.len().saturating_add(self.directories.len())
    }

    pub fn clear(&mut self)
        ensures
            final(self).exact_set() == Set::<Seq<char>>::empty(),
            final(self).directory_set() == Set::<Seq<char>>::empty(),
    {
        self.exact.clear();
        self.directories.clear();
    }
}

// ---------------------------------------------------------------------------
// Baseline path keys
// ---------------------------------------------------------------------------

/// The path key of the entry at position `p`.
pub open spec fn entry_key(s: Seq<IndexedEntry>, p: int, mode: PathComparisonMode) -> Seq<char> {
    path_key_spec(s[p].path@, mode)
}

/// The position of the last entry whose path key is `k`.
pub open spec fn last_key_position(s: Seq<IndexedEntry>, k: Seq<char>, mode: PathComparisonMode) -> Option<int>
    decreases s.len(),
{
    if s.len() == 0 {
        None
    } else if path_key_spec(s.last().path@, mode) == k {
        Some(s.len() - 1)
    } else {
        last_key_position(s.drop_last(), k, mode)
    }
}

pub proof fn lemma_last_key_position(s: Seq<IndexedEntry>, k: Seq<char>, mode: PathComparisonMode)
    ensures
        match last_key_position(s, k, mode) {
            Some(p) => 0 <= p < s.len() && entry_key(s, p, mode) == k && forall|j: int|
                p < j < s.len() ==> entry_key(s, j, mode) != k,
            None => forall|j: int| 0 <= j < s.len() ==> entry_key(s, j, mode) != k,
        },
    decreases s.len(),
{
    if s.len() > 0 && path_key_spec(s.last().path@, mode) != k {
        lemma_last_key_position(s.drop_last(), k, mode);
        assert forall|j: int| 0 <= j < s.len() - 1 implies entry_key(s, j, mode) == entry_key(s.drop_last(), j, mode) by {
            assert(s[j] == s.drop_last()[j]);
        }
    }
}

/// Each path key of the entries, with the position of the last entry that has it.
pub open spec fn baseline_positions(s: Seq<IndexedEntry>, mode: PathComparisonMode) -> Map<Seq<char>, usize> {
    Map::new(
        |k: Seq<char>| last_key_position(s, k, mode) is Some,
        |k: Seq<char>| last_key_position(s, k, mode)->0 as usize,
    )
}

/// Between two sorted positions with one key, every position has that key.
proof fn lemma_sorted_run(kv: Seq<Seq<char>>, sorted: Seq<u32>, a: int, b: int, c: int)
    requires
        occ_sorted(kv, sorted),
        0 <= a < b <= c < sorted.len(),
        kv[sorted[a] as int] == kv[sorted[c] as int],
    ensures
        kv[sorted[b] as int] == kv[sorted[a] as int],
{
    let ka = kv[sorted[a] as int];
    let kb = kv[sorted[b] as int];
    assert(occ_lt(kv, sorted[a], sorted[b]));
    if kb != ka {
        assert(seq_lt(ka, kb));
        if b < c {
            assert(occ_lt(kv, sorted[b], sorted[c]));
            if seq_lt(kb, ka) {
                lemma_seq_lt_transitive(ka, kb, ka);
            }
        }
        lemma_seq_lt_irreflexive(ka);
    }
}

/// Sorted earlier with the same key means a smaller position.
proof fn lemma_sorted_same_key(kv: Seq<Seq<char>>, sorted: Seq<u32>, a: int, b: int)
    requires
        occ_sorted(kv, sorted),
        0 <= a < b < sorted.len(),
        kv[sorted[a] as int] == kv[sorted[b] as int],
    ensures
        sorted[a] < sorted[b],
{
    assert(occ_lt(kv, sorted[a], sorted[b]));
    lemma_seq_lt_irreflexive(kv[sorted[a] as int]);
}

/// The sorted index `j` closes the run of its key.
pub open spec fn closes_run(kv: Seq<Seq<char>>, sorted: Seq<u32>, j: int) -> bool {
    j + 1 == sorted.len() || kv[sorted[j + 1] as int] != kv[sorted[j] as int]
}

/// The path keys of the entries, each with the position of the last entry that has it.
fn index_baseline_keys(entries: &[IndexedEntry], mode: PathComparisonMode) -> (r: StrMap<usize>)
    requires
        entries@.len() <= u32::MAX,
    ensures
        r.as_map() == baseline_positions(entries@, mode),
{
    let n = entries.len();
    let mut keys: Vec<Vec<char>> = Vec::new();
    let mut ids: Vec<u32> = Vec::new();
    let mut p: usize = 0;
    while p < n
        invariant
            p <= n,
            n == entries@.len(),
            n <= u32::MAX,
            keys@.len() == p,
            ids@.len() == p,
            forall|j: int| 0 <= j < p ==> #[trigger] keys@[j]@ == entry_key(entries@, j, mode),
            forall|j: int| 0 <= j < p ==> #[trigger] ids@[j] == j,
        decreases n - p,
    {
        let key = normalize_path_text_key_for_mode(entries[p].path.as_str(), mode);
        keys.push(chars_of(key.as_str()));
        ids.push(p as u32);
        p = p + 1;
    }
    let ghost kv = keys_view(keys@);
    proof {
        assert forall|k: int| 0 <= k < ids@.len() implies #[trigger] ids@[k] < keys@.len() by {}
        assert forall|j: int| 0 <= j < n implies #[trigger] kv[j] == entry_key(entries@, j, mode) by {
            assert(kv[j] == keys@[j]@);
        }
    }
    let sorted = sort_occ(&keys, ids.as_slice());
    proof {
        assert forall|q: int| 0 <= q < n implies #[trigger] sorted@.contains(q as u32) by {
            assert(ids@[q] == q as u32);
            assert(ids@.contains(q as u32));
        }
    }
    let m = sorted.len();
    let mut pairs: Vec<(String, usize)> = Vec::new();
    let ghost mut origin: Seq<int> = Seq::empty();
    let ghost mut slot: Seq<int> = Seq::empty();
    let mut i: usize = 0;
    proof {
        assert(pair_keys(pairs@) =~= Seq::<Seq<char>>::empty());
    }
    while i < m
        invariant
            i <= m,
            m == sorted@.len(),
            n == entries@.len(),
            keys@.len() == n,
            kv == keys_view(keys@),
            occ_sorted(kv, sorted@),
            forall|k: int| 0 <= k < m ==> #[trigger] sorted@[k] < n,
            ascending(pair_keys(pairs@)),
            origin.len() == pairs@.len(),
            slot.len() == i,
            forall|t: int| 0 <= t < pairs@.len() ==> {
                let j = #[trigger] origin[t];
                &&& 0 <= j < i
                &&& closes_run(kv, sorted@, j)
                &&& pairs@[t].1 == sorted@[j]
                &&& pairs@[t].0@ == kv[sorted@[j] as int]
            },
            forall|j: int| 0 <= j < i && closes_run(kv, sorted@, j) ==> {
                let t = #[trigger] slot[j];
                &&& 0 <= t < pairs@.len()
                &&& pairs@[t].1 == sorted@[j]
            },
        decreases m - i,
    {
        let q = sorted[i];
        let closes = if i + 1 == m {
            true
        } else {
            let nq = sorted[i + 1];
            !chars_eq(keys[nq as usize].as_slice(), keys[q as usize].as_slice())
        };
        proof {
            assert(keys@[q as int]@ == kv[q as int]);
            if i + 1 < m {
                assert(keys@[sorted@[i + 1] as int]@ == kv[sorted@[i + 1] as int]);
            }
            assert(closes == closes_run(kv, sorted@, i as int));
        }
        if closes {
            let ghost before = pairs@;
            let key = string_from_chars(keys[q as usize].as_slice());
            pairs.push((key, q as usize));
            proof {
                let pk = pair_keys(pairs@);
                assert forall|t: int| 0 <= t < before.len() implies seq_lt(#[trigger] pair_keys(before)[t], kv[q as int]) by {
                    let j = origin[t];
                    assert(pair_keys(before)[t] == kv[sorted@[j] as int]);
                    assert(occ_lt(kv, sorted@[j], sorted@[i as int]));
                    if kv[sorted@[j] as int] == kv[q as int] {
                        lemma_sorted_run(kv, sorted@, j, j + 1, i as int);
                    }
                }
                assert forall|a: int, b: int| 0 <= a < b < pk.len() implies seq_lt(#[trigger] pk[a], #[trigger] pk[b]) by {
                    if b < before.len() {
                        assert(pk[a] == pair_keys(before)[a] && pk[b] == pair_keys(before)[b]);
                    } else {
                        assert(pk[a] == pair_keys(before)[a]);
                        assert(pk[b] == kv[q as int]);
                    }
                }
                origin = origin.push(i as int);
                slot = slot.push(before.len() as int);
            }
        } else {
            proof {
                slot = slot.push(-1);
            }
        }
        i = i + 1;
    }
    let r = StrMap::from_sorted_pairs(pairs);
    proof {
        let target = baseline_positions(entries@, mode);
        let got = r.as_map();
        let pk = pair_keys(pairs@);
        // A key with entries is listed, with the last position.
        assert forall|k: Seq<char>| #[trigger] target.contains_key(k) implies got.contains_key(k) && got[k] == target[k] by {
            lemma_last_key_position(entries@, k, mode);
            let last = last_key_position(entries@, k, mode)->0;
            assert(sorted@.contains(last as u32));
            let j = choose|j: int| 0 <= j < m && sorted@[j] == last as u32;
            assert(kv[last] == k);
            if !closes_run(kv, sorted@, j) {
                lemma_sorted_same_key(kv, sorted@, j, j + 1);
                assert(entry_key(entries@, sorted@[j + 1] as int, mode) == k);
            }
            let t = slot[j];
            assert(pairs@[t].1 == sorted@[j]);
            let j2 = origin[t];
            assert(pk[t] == k);
            assert(pk.contains(k));
            lemma_index_of_ascending(pk, t);
            assert(pair_values(pairs@)[t] == last as usize);
        }
        // A listed key has entries.
        assert forall|k: Seq<char>| #[trigger] got.contains_key(k) implies target.contains_key(k) by {
            let t = choose|t: int| 0 <= t < pk.len() && pk[t] == k;
            let j = origin[t];
            lemma_last_key_position(entries@, k, mode);
            assert(entry_key(entries@, sorted@[j] as int, mode) == k);
        }
        assert(got =~= target);
    }
    r
}

// ---------------------------------------------------------------------------
// The layered index
// ---------------------------------------------------------------------------

/// `k` lies below `root`.
pub open spec fn descendant_key(root: Seq<char>, k: Seq<char>) -> bool {
    has_prefix(k, descendant_prefix(root)) && k != root
}

/// `k` is `root` or lies below it.
pub open spec fn key_matches(root: Seq<char>, k: Seq<char>) -> bool {
    k == root || descendant_key(root, k)
}

/// Each baseline path key with the kind of the last entry that has it.
pub open spec fn baseline_kinds(s: Seq<IndexedEntry>, mode: PathComparisonMode) -> Map<Seq<char>, IndexedEntryKind> {
    Map::new(
        |k: Seq<char>| last_key_position(s, k, mode) is Some,
        |k: Seq<char>| s[last_key_position(s, k, mode)->0].kind,
    )
}

/// A removal or upsert treats `key` as a directory: a directory tombstone, an
/// overlay or baseline directory at it, or an overlay or baseline key below it.
pub open spec fn is_directory_key(
    overlay: Map<Seq<char>, (IndexedEntry, u64)>,
    dirs: Set<Seq<char>>,
    base: Map<Seq<char>, IndexedEntryKind>,
    key: Seq<char>,
) -> bool {
    ||| dirs.contains(key)
    ||| overlay.contains_key(key) && overlay[key].0.kind == IndexedEntryKind::Directory
    ||| base.contains_key(key) && base[key] == IndexedEntryKind::Directory
    ||| exists|k: Seq<char>| overlay.contains_key(k) && #[trigger] has_prefix(k, descendant_prefix(key))
    ||| exists|k: Seq<char>| base.contains_key(k) && #[trigger] has_prefix(k, descendant_prefix(key))
}

/// The tombstones after recording a removed path.
pub open spec fn tombstone_exact(exact: Set<Seq<char>>, dirs: Set<Seq<char>>, key: Seq<char>) -> (Set<Seq<char>>, Set<Seq<char>>) {
    if dir_covers(dirs, key) {
        (exact, dirs)
    } else {
        (exact.insert(key), dirs)
    }
}

/// The tombstones after recording a removed subtree.
pub open spec fn tombstone_directory(exact: Set<Seq<char>>, dirs: Set<Seq<char>>, key: Seq<char>) -> (Set<Seq<char>>, Set<Seq<char>>) {
    if dir_covers(dirs, key) {
        (exact, dirs)
    } else {
        (without_scope(exact, key), without_scope(dirs, key).insert(key))
    }
}

/// The delta state (overlay, exact and directory tombstones) after removing `key`.
pub open spec fn after_removal(
    st: (Map<Seq<char>, (IndexedEntry, u64)>, Set<Seq<char>>, Set<Seq<char>>),
    base: Map<Seq<char>, IndexedEntryKind>,
    key: Seq<char>,
) -> (Map<Seq<char>, (IndexedEntry, u64)>, Set<Seq<char>>, Set<Seq<char>>) {
    if is_directory_key(st.0, st.2, base, key) {
        let t = tombstone_directory(st.1, st.2, key);
        (st.0.remove_keys(Set::new(|k: Seq<char>| key_matches(key, k))), t.0, t.1)
    } else {
        let t = tombstone_exact(st.1, st.2, key);
        (st.0.remove(key), t.0, t.1)
    }
}

/// The delta state after upserting `e` at generation `gen`: a file over a
/// directory first removes the subtree below it.
pub open spec fn after_upsert(
    st: (Map<Seq<char>, (IndexedEntry, u64)>, Set<Seq<char>>, Set<Seq<char>>),
    base: Map<Seq<char>, IndexedEntryKind>,
    e: IndexedEntry,
    gen: u64,
    mode: PathComparisonMode,
) -> (Map<Seq<char>, (IndexedEntry, u64)>, Set<Seq<char>>, Set<Seq<char>>) {
    let key = path_key_spec(e.path@, mode);
    let replaces = e.kind != IndexedEntryKind::Directory && is_directory_key(st.0, st.2, base, key);
    let cleared = if replaces {
        let t = tombstone_directory(st.1, st.2, key);
        (st.0.remove_keys(Set::new(|k: Seq<char>| descendant_key(key, k))), t.0, t.1)
    } else {
        st
    };
    (cleared.0.insert(key, (e, gen)), cleared.1.remove(key), cleared.2)
}

/// The delta state after removing each key in turn.
pub open spec fn removals_applied(
    st: (Map<Seq<char>, (IndexedEntry, u64)>, Set<Seq<char>>, Set<Seq<char>>),
    base: Map<Seq<char>, IndexedEntryKind>,
    keys: Seq<Seq<char>>,
) -> (Map<Seq<char>, (IndexedEntry, u64)>, Set<Seq<char>>, Set<Seq<char>>)
    decreases keys.len(),
{
    if keys.len() == 0 {
        st
    } else {
        after_removal(removals_applied(st, base, keys.drop_last()), base, keys.last())
    }
}

/// The delta state after upserting each entry in turn.
pub open spec fn upserts_applied(
    st: (Map<Seq<char>, (IndexedEntry, u64)>, Set<Seq<char>>, Set<Seq<char>>),
    base: Map<Seq<char>, IndexedEntryKind>,
    es: Seq<IndexedEntry>,
    gen: u64,
    mode: PathComparisonMode,
) -> (Map<Seq<char>, (IndexedEntry, u64)>, Set<Seq<char>>, Set<Seq<char>>)
    decreases es.len(),
{
    if es.len() == 0 {
        st
    } else {
        after_upsert(upserts_applied(st, base, es.drop_last(), gen, mode), base, es.last(), gen, mode)
    }
}

/// The path keys of removed paths.
pub open spec fn removal_keys(removals: Seq<String>, mode: PathComparisonMode) -> Seq<Seq<char>> {
    Seq::new(removals.len(), |i: int| path_key_spec(removals[i]@, mode))
}

/// The overlay entries in increasing key order.
pub open spec fn overlay_in_key_order(m: Map<Seq<char>, (IndexedEntry, u64)>) -> Seq<IndexedEntry> {
    let keys = choose|s: Seq<Seq<char>>| ascending(s) && s.to_set() == m.dom();
    Seq::new(keys.len(), |i: int| m[keys[i]].0)
}

/// The baseline entries under an overlay of newer entries and tombstones of
/// removed paths and subtrees, each layer indexed for search.
pub struct LayeredSearchIndex {
    mode: PathComparisonMode,
    baseline: SearchIndex,
    baseline_by_path: StrMap<usize>,
    overlay_entries: StrMap<(IndexedEntry, u64)>,
    overlay: SearchIndex,
    tombstones: PathTombstones,
    generation: u64,
    visible_entry_count: usize,
}

impl LayeredSearchIndex {
    #[verifier::type_invariant]
    spec fn inv(&self) -> bool {
        &&& self.baseline_by_path.as_map() == baseline_positions(self.baseline@, self.mode)
        &&& self.overlay@ == Seq::new(self.overlay_entries.vals().len(), |i: int| self.overlay_entries.vals()[i].0)
        &&& forall|k: Seq<char>| #[trigger] self.overlay_entries.as_map().contains_key(k) ==> path_key_spec(
            self.overlay_entries.as_map()[k].0.path@,
            self.mode,
        ) == k
    }

    /// How path spellings are compared.
    pub closed spec fn comparison_mode(&self) -> PathComparisonMode {
        self.mode
    }

    /// The baseline entries.
    pub closed spec fn baseline_view(&self) -> Seq<IndexedEntry> {
        self.baseline@
    }

    /// The overlay: entries by path key, with the generation that wrote each.
    pub closed spec fn overlay_map(&self) -> Map<Seq<char>, (IndexedEntry, u64)> {
        self.overlay_entries.as_map()
    }

    /// The removed paths.
    pub closed spec fn exact_tombstones(&self) -> Set<Seq<char>> {
        self.tombstones.exact_set()
    }

    /// The removed subtrees.
    pub closed spec fn directory_tombstones(&self) -> Set<Seq<char>> {
        self.tombstones.directory_set()
    }

    /// The generation of the last applied delta or baseline.
    pub closed spec fn generation_spec(&self) -> u64 {
        self.generation
    }

    /// The kept count of visible entries.
    pub closed spec fn counted(&self) -> usize {
        self.visible_entry_count
    }

    /// The delta state: overlay, removed paths, removed subtrees.
    pub open spec fn delta_state(&self) -> (Map<Seq<char>, (IndexedEntry, u64)>, Set<Seq<char>>, Set<Seq<char>>) {
        (self.overlay_map(), self.exact_tombstones(), self.directory_tombstones())
    }

    /// The baseline path keys with their kinds.
    pub open spec fn base_kinds(&self) -> Map<Seq<char>, IndexedEntryKind> {
        baseline_kinds(self.baseline_view(), self.comparison_mode())
    }

    /// `key` is hidden by a tombstone.
    pub open spec fn tombstoned(&self, key: Seq<char>) -> bool {
        self.exact_tombstones().contains(key) || dir_covers(self.directory_tombstones(), key)
    }

    /// `key` is visible: in the overlay, or in the baseline and not removed.
    pub open spec fn visible(&self, key: Seq<char>) -> bool {
        self.overlay_map().contains_key(key) || (self.base_kinds().contains_key(key) && !self.tombstoned(key))
    }

    /// The entry visible at `key`.
    pub open spec fn visible_entry(&self, key: Seq<char>) -> IndexedEntry {
        if self.overlay_map().contains_key(key) {
            self.overlay_map()[key].0
        } else {
            self.baseline_view()[last_key_position(self.baseline_view(), key, self.comparison_mode())->0]
        }
    }
}

impl LayeredSearchIndex {
    /// A layered index over `baseline` with no delta yet, at generation 0.
    pub fn from_search_index(baseline: SearchIndex) -> (r: Self)
        ensures
            r.baseline_view() == baseline@,
            r.overlay_map() == Map::<Seq<char>, (IndexedEntry, u64)>::empty(),
            r.exact_tombstones() == Set::<Seq<char>>::empty(),
            r.directory_tombstones() == Set::<Seq<char>>::empty(),
            r.generation_spec() == 0,
    {
        let mode = PathComparisonMode::native();
        let baseline_by_path = index_baseline_keys(baseline.entries(), mode);
        let visible_entry_count = baseline_by_path.len();
        let overlay_entries: StrMap<(IndexedEntry, u64)> = StrMap::new();
        let overlay = SearchIndex::default();
        proof {
            assert(overlay@ =~= Seq::new(overlay_entries.vals().len(), |i: int| overlay_entries.vals()[i].0));
        }
        LayeredSearchIndex {
            mode,
            baseline,
            baseline_by_path,
            overlay_entries,
            overlay,
            tombstones: PathTombstones::default(),
            generation: 0,
            visible_entry_count,
        }
    }

    /// A layered index over the entries as its baseline.
    pub fn from_baseline(entries: Vec<IndexedEntry>) -> (r: Self)
        requires
            candidate_build_fits(entries@, (u32::MAX - 1) as usize),
        ensures
            r.baseline_view() == entries@,
            r.overlay_map() == Map::<Seq<char>, (IndexedEntry, u64)>::empty(),
            r.exact_tombstones() == Set::<Seq<char>>::empty(),
            r.directory_tombstones() == Set::<Seq<char>>::empty(),
            r.generation_spec() == 0,
    {
        LayeredSearchIndex::from_search_index(SearchIndex::from_entries(entries))
    }

    /// The generation of the last applied delta or baseline.
    pub fn generation(&self) -> (r: u64)
        ensures
            r == self.generation_spec(),
    {
        self.generation
    }

    /// How this index compares path spellings.
    pub fn path_comparison_mode(&self) -> (r: PathComparisonMode)
        ensures
            r == self.comparison_mode(),
    {
        self.mode
    }

    /// The number of baseline entries.
    pub fn baseline_entry_count(&self) -> (r: usize)
        ensures
            r == self.baseline_view().len(),
    {
        self.baseline.entries().len()
    }

    /// The number of overlay entries.
    pub fn overlay_entry_count(&self) -> (r: usize)
        ensures
            r == self.overlay_map().dom().len(),
    {
        let r = self.overlay_entries.len();
        proof {
            let ks = self.overlay_entries.keys();
            lemma_ascending_distinct(ks);
            ks.unique_seq_to_set();
            assert(self.overlay_map().dom() =~= ks.to_set());
        }
        r
    }

    /// The number of tombstones, saturating.
    pub fn tombstone_entry_count(&self) -> (r: usize)
        ensures
            r == (if self.exact_tombstones().len() + self.directory_tombstones().len() > usize::MAX {
                usize::MAX as int
            } else {
                (self.exact_tombstones().len() + self.directory_tombstones().len()) as int
            }),
    {
        self.tombstones.len()
    }

    /// Overlay entries and tombstones together, saturating.
    pub fn delta_entry_count(&self) -> (r: usize)
        ensures
            r == (if self.overlay_map().dom().len() + self.exact_tombstones().len() + self.directory_tombstones().len()
                > usize::MAX {
                usize::MAX as int
            } else {
                (self.overlay_map().dom().len() + self.exact_tombstones().len() + self.directory_tombstones().len()) as int
            }),
    {
        self.overlay_entry_count().saturating_add(self.tombstone_entry_count())
    }
}

impl Default for LayeredSearchIndex {
    fn default() -> (r: Self)
        ensures
            r.baseline_view() == Seq::<IndexedEntry>::empty(),
            r.overlay_map() == Map::<Seq<char>, (IndexedEntry, u64)>::empty(),
            r.exact_tombstones() == Set::<Seq<char>>::empty(),
            r.directory_tombstones() == Set::<Seq<char>>::empty(),
            r.generation_spec() == 0,
    {
        LayeredSearchIndex::from_search_index(SearchIndex::default())
    }
}

/// Two increasing lists of the same keys are the same list.
pub proof fn lemma_ascending_same_set(s: Seq<Seq<char>>, t: Seq<Seq<char>>)
    requires
        ascending(s),
        ascending(t),
        s.to_set() == t.to_set(),
    ensures
        s == t,
    decreases s.len(),
{
    lemma_ascending_distinct(s);
    lemma_ascending_distinct(t);
    if s.len() == 0 {
        if t.len() > 0 {
            assert(t.to_set().contains(t[0]));
        }
        assert(t.len() == 0);
    } else {
        assert(s.to_set().contains(s[0]));
        assert(t.len() > 0) by {
            if t.len() == 0 {
                assert(t.to_set().contains(s[0]));
            }
        }
        // Both heads are the least key.
        assert(t.to_set().contains(s[0]));
        assert(s.to_set().contains(t[0]));
        let i = choose|i: int| 0 <= i < t.len() && t[i] == s[0];
        let j = choose|j: int| 0 <= j < s.len() && s[j] == t[0];
        if i > 0 {
            assert(seq_lt(t[0], t[i]));
            if j > 0 {
                assert(seq_lt(s[0], s[j]));
                lemma_seq_lt_transitive(t[0], s[0], t[0]);
                lemma_seq_lt_irreflexive(t[0]);
            }
        }
        assert(s[0] == t[0]);
        let s1 = s.drop_first();
        let t1 = t.drop_first();
        assert(ascending(s1));
        assert(ascending(t1));
        assert(s1.to_set() =~= t1.to_set()) by {
            assert forall|x: Seq<char>| s1.to_set().contains(x) implies t1.to_set().contains(x) by {
                let a = choose|a: int| 0 <= a < s1.len() && s1[a] == x;
                assert(s[a + 1] == x);
                assert(x != s[0]);
                assert(t.to_set().contains(x));
                let b = choose|b: int| 0 <= b < t.len() && t[b] == x;
                assert(b != 0);
                assert(t1[b - 1] == x);
            }
            assert forall|x: Seq<char>| t1.to_set().contains(x) implies s1.to_set().contains(x) by {
                let a = choose|a: int| 0 <= a < t1.len() && t1[a] == x;
                assert(t[a + 1] == x);
                assert(x != t[0]);
                assert(s.to_set().contains(x));
                let b = choose|b: int| 0 <= b < s.len() && s[b] == x;
                assert(b != 0);
                assert(s1[b - 1] == x);
            }
        }
        lemma_ascending_same_set(s1, t1);
        assert(s =~= t) by {
            assert forall|k: int| 0 <= k < s.len() implies s[k] == t[k] by {
                if k > 0 {
                    assert(s[k] == s1[k - 1]);
                    assert(t[k] == t1[k - 1]);
                }
            }
        }
    }
}

/// `after` is `before` with `delta` applied: unchanged when the delta is not
/// newer; else at the delta's generation, over the same baseline, with the
/// delta state `delta_outcome` gives.
pub open spec fn delta_applied(before: LayeredSearchIndex, delta: CommittedIndexDelta, after: LayeredSearchIndex) -> bool {
    if delta.generation <= before.generation_spec() {
        after == before
    } else {
        &&& after.generation_spec() == delta.generation
        &&& after.baseline_view() == before.baseline_view()
        &&& after.comparison_mode() == before.comparison_mode()
        &&& after.delta_state() == before.delta_outcome(delta)
    }
}

/// Law: replaying a committed delta changes nothing: the second application
/// finds its generation already reached.
pub proof fn lemma_delta_replay_is_idempotent(
    a: LayeredSearchIndex,
    delta: CommittedIndexDelta,
    b: LayeredSearchIndex,
    c: LayeredSearchIndex,
)
    requires
        delta_applied(a, delta, b),
        delta_applied(b, delta, c),
    ensures
        c == b,
{
}

impl LayeredSearchIndex {
    /// The delta state after applying `delta` over this index.
    pub open spec fn delta_outcome(&self, delta: CommittedIndexDelta) -> (
        Map<Seq<char>, (IndexedEntry, u64)>,
        Set<Seq<char>>,
        Set<Seq<char>>,
    ) {
        upserts_applied(
            removals_applied(
                self.delta_state(),
                self.base_kinds(),
                removal_keys(delta.removals@, self.comparison_mode()),
            ),
            self.base_kinds(),
            delta.upserts@,
            delta.generation,
            self.comparison_mode(),
        )
    }
}

/// Whether a removal or upsert at `key` treats it as a directory.
fn path_is_directory(
    baseline: &SearchIndex,
    baseline_by_path: &StrMap<usize>,
    overlay_entries: &StrMap<(IndexedEntry, u64)>,
    tombstones: &PathTombstones,
    mode: PathComparisonMode,
    key: &str,
) -> (r: bool)
    requires
        baseline_by_path.as_map() == baseline_positions(baseline@, mode),
    ensures
        r == is_directory_key(
            overlay_entries.as_map(),
            tombstones.directory_set(),
            baseline_kinds(baseline@, mode),
            key@,
        ),
{
    let ghost base = baseline_kinds(baseline@, mode);
    if tombstones.contains_directory(key) {
        return true;
    }
    let overlay_dir = match overlay_entries.get(key) {
        Some(v) => v.0.kind == IndexedEntryKind::Directory,
        None => false,
    };
    if overlay_dir {
        return true;
    }
    let base_dir = match baseline_by_path.get(key) {
        Some(pos) => {
            let entries = baseline.entries();
            proof {
                lemma_last_key_position(baseline@, key@, mode);
                assert(baseline_by_path.as_map().contains_key(key@));
                assert(baseline_positions(baseline@, mode).contains_key(key@));
                assert(last_key_position(baseline@, key@, mode) is Some);
                assert(baseline_by_path.as_map()[key@] == *pos);
                assert(baseline_positions(baseline@, mode)[key@] == *pos);
                let p = last_key_position(baseline@, key@, mode)->0;
                assert(0 <= p < entries@.len());
                assert(*pos == p);
                assert(base[key@] == entries@[p].kind);
            }
            entries[*pos].kind == IndexedEntryKind::Directory
        },
        None => false,
    };
    if base_dir {
        return true;
    }
    proof {
        let om = overlay_entries.as_map();
        assert(!(om.contains_key(key@) && om[key@].0.kind == IndexedEntryKind::Directory));
        assert(!(base.contains_key(key@) && base[key@] == IndexedEntryKind::Directory)) by {
            if base.contains_key(key@) {
                assert(baseline_by_path.as_map().contains_key(key@));
            }
        }
    }
    let prefix = descendant_prefix_of(key);
    let in_overlay = overlay_entries.has_key_with_prefix(prefix.as_str());
    let in_baseline = baseline_by_path.has_key_with_prefix(prefix.as_str());
    proof {
        let om = overlay_entries.as_map();
        if in_overlay {
            let i = choose|i: int| 0 <= i < overlay_entries.keys().len() && has_prefix(#[trigger] overlay_entries.keys()[i], prefix@);
            assert(om.contains_key(overlay_entries.keys()[i]));
        } else {
            assert forall|k: Seq<char>| om.contains_key(k) implies !#[trigger] has_prefix(k, descendant_prefix(key@)) by {
                let i = choose|i: int| 0 <= i < overlay_entries.keys().len() && overlay_entries.keys()[i] == k;
            }
        }
        let bm = baseline_by_path.as_map();
        if in_baseline {
            let i = choose|i: int| 0 <= i < baseline_by_path.keys().len() && has_prefix(#[trigger] baseline_by_path.keys()[i], prefix@);
            assert(bm.contains_key(baseline_by_path.keys()[i]));
            assert(base.contains_key(baseline_by_path.keys()[i]));
        } else {
            assert forall|k: Seq<char>| base.contains_key(k) implies !#[trigger] has_prefix(k, descendant_prefix(key@)) by {
                assert(bm.contains_key(k));
                let i = choose|i: int| 0 <= i < baseline_by_path.keys().len() && baseline_by_path.keys()[i] == k;
            }
        }
    }
    in_overlay || in_baseline
}

/// How many texts of `s` satisfy `p`.
pub open spec fn count_where(s: Seq<Seq<char>>, p: spec_fn(Seq<char>) -> bool) -> nat
    decreases s.len(),
{
    if s.len() == 0 {
        0
    } else {
        count_where(s.drop_last(), p) + if p(s.last()) {
            1nat
        } else {
            0nat
        }
    }
}

proof fn lemma_count_where_concat(a: Seq<Seq<char>>, b: Seq<Seq<char>>, p: spec_fn(Seq<char>) -> bool)
    ensures
        count_where(a + b, p) == count_where(a, p) + count_where(b, p),
    decreases b.len(),
{
    if b.len() > 0 {
        assert((a + b).drop_last() =~= a + b.drop_last());
        lemma_count_where_concat(a, b.drop_last(), p);
    } else {
        assert(a + b =~= a);
    }
}

proof fn lemma_count_where_none(s: Seq<Seq<char>>, p: spec_fn(Seq<char>) -> bool)
    requires
        forall|i: int| 0 <= i < s.len() ==> !p(#[trigger] s[i]),
    ensures
        count_where(s, p) == 0,
    decreases s.len(),
{
    if s.len() > 0 {
        lemma_count_where_none(s.drop_last(), p);
    }
}

proof fn lemma_count_where_all(s: Seq<Seq<char>>, p: spec_fn(Seq<char>) -> bool)
    requires
        forall|i: int| 0 <= i < s.len() ==> p(#[trigger] s[i]),
    ensures
        count_where(s, p) == s.len(),
    decreases s.len(),
{
    if s.len() > 0 {
        lemma_count_where_all(s.drop_last(), p);
    }
}

/// No overlay entry and no tombstone is at `k`.
pub open spec fn uncovered(
    overlay_entries: StrMap<(IndexedEntry, u64)>,
    tombstones: PathTombstones,
    k: Seq<char>,
) -> bool {
    !overlay_entries.has(k) && !tombstones.exact_set().contains(k) && !dir_covers(tombstones.directory_set(), k)
}

/// The visible entries at `key`, plus, when `subtree`, those whose keys start
/// with `key`'s descendant prefix (so a key ending in `/` is counted twice).
pub open spec fn scope_count(
    baseline_by_path: StrMap<usize>,
    overlay_entries: StrMap<(IndexedEntry, u64)>,
    tombstones: PathTombstones,
    key: Seq<char>,
    subtree: bool,
) -> nat {
    let prefix = descendant_prefix(key);
    let at_key: nat = (if baseline_by_path.has(key) && uncovered(overlay_entries, tombstones, key) {
        1nat
    } else {
        0nat
    }) + (if overlay_entries.has(key) {
        1nat
    } else {
        0nat
    });
    let below: nat = if subtree {
        count_where(
            baseline_by_path.keys(),
            |k: Seq<char>| has_prefix(k, prefix) && uncovered(overlay_entries, tombstones, k),
        ) + count_where(overlay_entries.keys(), |k: Seq<char>| has_prefix(k, prefix))
    } else {
        0nat
    };
    at_key + below
}

/// `n`, saturating at `usize::MAX`.
pub open spec fn saturated(n: nat) -> usize {
    if n > usize::MAX {
        usize::MAX
    } else {
        n as usize
    }
}

/// The keys of `s` at positions `lo..hi` satisfying `p` are all those of `s`.
proof fn lemma_count_where_range(s: Seq<Seq<char>>, p: spec_fn(Seq<char>) -> bool, lo: int, hi: int)
    requires
        0 <= lo <= hi <= s.len(),
        forall|i: int| 0 <= i < s.len() && !(lo <= i < hi) ==> !p(#[trigger] s[i]),
    ensures
        count_where(s, p) == count_where(s.subrange(lo, hi), p),
{
    assert(s =~= s.take(lo) + s.subrange(lo, hi) + s.skip(hi));
    lemma_count_where_concat(s.take(lo) + s.subrange(lo, hi), s.skip(hi), p);
    lemma_count_where_concat(s.take(lo), s.subrange(lo, hi), p);
    assert forall|i: int| 0 <= i < s.take(lo).len() implies !p(#[trigger] s.take(lo)[i]) by {
        assert(s.take(lo)[i] == s[i]);
    }
    assert forall|i: int| 0 <= i < s.skip(hi).len() implies !p(#[trigger] s.skip(hi)[i]) by {
        assert(s.skip(hi)[i] == s[hi + i]);
    }
    lemma_count_where_none(s.take(lo), p);
    lemma_count_where_none(s.skip(hi), p);
}

/// How many visible entries lie at `key`, and below it when `subtree`.
fn count_visible_scope(
    baseline_by_path: &StrMap<usize>,
    overlay_entries: &StrMap<(IndexedEntry, u64)>,
    tombstones: &PathTombstones,
    key: &str,
    subtree: bool,
) -> (r: usize)
    ensures
        r == saturated(scope_count(*baseline_by_path, *overlay_entries, *tombstones, key@, subtree)),
{
    let mut baseline_count: usize = 0;
    if baseline_by_path.contains_key(key) && !overlay_entries.contains_key(key) && !tombstones.contains(key) {
        baseline_count = 1;
    }
    let mut overlay_count: usize = 0;
    if overlay_entries.contains_key(key) {
        overlay_count = 1;
    }
    let ghost at_base: nat = baseline_count as nat;
    let ghost at_overlay: nat = overlay_count as nat;
    let ghost below_base: nat = 0;
    let ghost below_overlay: nat = 0;
    if subtree {
        let prefix = descendant_prefix_of(key);
        let ghost pb = |k: Seq<char>| has_prefix(k, prefix@) && uncovered(*overlay_entries, *tombstones, k);
        let ghost po = |k: Seq<char>| has_prefix(k, prefix@);
        let (lo, hi) = baseline_by_path.prefixed_range(prefix.as_str());
        let pairs = baseline_by_path.pairs();
        let ghost keys = baseline_by_path.keys();
        let mut i = lo;
        proof {
            assert(keys.subrange(lo as int, lo as int) =~= Seq::<Seq<char>>::empty());
        }
        while i < hi
            invariant
                lo <= i <= hi <= pairs@.len(),
                pairs@.len() == keys.len(),
                keys == baseline_by_path.keys(),
                forall|t: int| 0 <= t < pairs@.len() ==> (#[trigger] pairs@[t]).0@ == keys[t],
                forall|t: int| lo <= t < hi ==> has_prefix(#[trigger] keys[t], prefix@),
                pb == (|k: Seq<char>| has_prefix(k, prefix@) && uncovered(*overlay_entries, *tombstones, k)),
                baseline_count == saturated(at_base + count_where(keys.subrange(lo as int, i as int), pb)),
            decreases hi - i,
        {
            let k = pairs[i].0.as_str();
            proof {
                assert(keys.subrange(lo as int, i + 1).drop_last() =~= keys.subrange(lo as int, i as int));
                assert(keys.subrange(lo as int, i + 1).last() == keys[i as int]);
                assert(pairs@[i as int].0@ == keys[i as int]);
            }
            if !overlay_entries.contains_key(k) && !tombstones.contains(k) {
                baseline_count = baseline_count.saturating_add(1);
            }
            i = i + 1;
        }
        let (olo, ohi) = overlay_entries.prefixed_range(prefix.as_str());
        proof {
            lemma_count_where_range(keys, pb, lo as int, hi as int);
            let okeys = overlay_entries.keys();
            lemma_count_where_range(okeys, po, olo as int, ohi as int);
            assert forall|t: int| 0 <= t < okeys.subrange(olo as int, ohi as int).len() implies po(
                #[trigger] okeys.subrange(olo as int, ohi as int)[t],
            ) by {
                assert(okeys.subrange(olo as int, ohi as int)[t] == okeys[olo + t]);
            }
            lemma_count_where_all(okeys.subrange(olo as int, ohi as int), po);
            below_base = count_where(keys, pb);
            below_overlay = count_where(okeys, po);
        }
        overlay_count = overlay_count.saturating_add(ohi - olo);
    }
    proof {
        assert(scope_count(*baseline_by_path, *overlay_entries, *tombstones, key@, subtree) == at_base + at_overlay
            + below_base + below_overlay);
    }
    baseline_count.saturating_add(overlay_count)
}

impl LayeredSearchIndex {
    /// Applies a committed delta newer than this index: removals first, then
    /// upserts, each by path key; an older or equal generation changes nothing.
    pub fn apply_delta(&mut self, delta: CommittedIndexDelta)
        requires
            delta.generation > old(self).generation_spec() ==> candidate_build_fits(
                overlay_in_key_order(old(self).delta_outcome(delta).0),
                (u32::MAX - 1) as usize,
            ),
        ensures
            delta_applied(*old(self), delta, *final(self)),
    {
        if delta.generation <= self.generation {
            return;
        }
        proof {
            use_type_invariant(&*self);
        }
        let ghost old_index = *self;
        let ghost base = old_index.base_kinds();
        let ghost target = old_index.delta_outcome(delta);
        let generation = delta.generation;
        let mut taken = LayeredSearchIndex::default();
        std::mem::swap(&mut taken, self);
        let LayeredSearchIndex {
            mode,
            baseline,
            baseline_by_path,
            mut overlay_entries,
            overlay: _,
            mut tombstones,
            generation: _,
            mut visible_entry_count,
        } = taken;
        let ghost rkeys = removal_keys(delta.removals@, mode);
        let removals = &delta.removals;
        let mut i: usize = 0;
        while i < removals.len()
            invariant
                i <= removals@.len(),
                removals@ == delta.removals@,
                rkeys == removal_keys(delta.removals@, mode),
                baseline_by_path.as_map() == baseline_positions(baseline@, mode),
                base == baseline_kinds(baseline@, mode),
                (overlay_entries.as_map(), tombstones.exact_set(), tombstones.directory_set()) == removals_applied(
                    old_index.delta_state(),
                    base,
                    rkeys.take(i as int),
                ),
                forall|k: Seq<char>| #[trigger] overlay_entries.as_map().contains_key(k) ==> path_key_spec(
                    overlay_entries.as_map()[k].0.path@,
                    mode,
                ) == k,
            decreases removals@.len() - i,
        {
            let key = normalize_path_key_for_mode(removals[i].as_str(), mode);
            let ghost st = (overlay_entries.as_map(), tombstones.exact_set(), tombstones.directory_set());
            proof {
                assert(rkeys.take(i + 1).drop_last() =~= rkeys.take(i as int));
                assert(rkeys.take(i + 1).last() == key@);
            }
            let is_directory = path_is_directory(&baseline, &baseline_by_path, &overlay_entries, &tombstones, mode, key.as_str());
            let before = count_visible_scope(&baseline_by_path, &overlay_entries, &tombstones, key.as_str(), is_directory);
            if is_directory {
                let prefix = descendant_prefix_of(key.as_str());
                proof {
                    if has_prefix(key@, prefix@) {
                        assert(prefix@.len() <= key@.len());
                        if !(key@.len() > 0 && key@.last() == '/') {
                            assert(prefix@.len() == key@.len() + 1);
                        }
                    }
                }
                overlay_entries.remove(key.as_str());
                overlay_entries.remove_prefixed_except(prefix.as_str(), key.as_str());
                tombstones.insert_directory(key.clone());
                proof {
                    let expect = st.0.remove_keys(Set::new(|k: Seq<char>| key_matches(key@, k)));
                    assert(overlay_entries.as_map() =~= expect);
                }
            } else {
                overlay_entries.remove(key.as_str());
                tombstones.insert_exact(key.clone());
            }
            let after = count_visible_scope(&baseline_by_path, &overlay_entries, &tombstones, key.as_str(), is_directory);
            visible_entry_count = visible_entry_count.saturating_sub(before).saturating_add(after);
            i = i + 1;
        }
        proof {
            assert(rkeys.take(rkeys.len() as int) =~= rkeys);
        }
        let ghost mid = (overlay_entries.as_map(), tombstones.exact_set(), tombstones.directory_set());
        let upserts = &delta.upserts;
        let mut j: usize = 0;
        while j < upserts.len()
            invariant
                j <= upserts@.len(),
                upserts@ == delta.upserts@,
                generation == delta.generation,
                baseline_by_path.as_map() == baseline_positions(baseline@, mode),
                base == baseline_kinds(baseline@, mode),
                (overlay_entries.as_map(), tombstones.exact_set(), tombstones.directory_set()) == upserts_applied(
                    mid,
                    base,
                    upserts@.take(j as int),
                    generation,
                    mode,
                ),
                forall|k: Seq<char>| #[trigger] overlay_entries.as_map().contains_key(k) ==> path_key_spec(
                    overlay_entries.as_map()[k].0.path@,
                    mode,
                ) == k,
            decreases upserts@.len() - j,
        {
            let entry = &upserts[j];
            let key = normalize_path_text_key_for_mode(entry.path.as_str(), mode);
            let ghost st = (overlay_entries.as_map(), tombstones.exact_set(), tombstones.directory_set());
            proof {
                assert(upserts@.take(j + 1).drop_last() =~= upserts@.take(j as int));
                assert(upserts@.take(j + 1).last() == *entry);
            }
            let replaces_directory = entry.kind != IndexedEntryKind::Directory && path_is_directory(
                &baseline,
                &baseline_by_path,
                &overlay_entries,
                &tombstones,
                mode,
                key.as_str(),
            );
            let before = count_visible_scope(
                &baseline_by_path,
                &overlay_entries,
                &tombstones,
                key.as_str(),
                replaces_directory,
            );
            if replaces_directory {
                let prefix = descendant_prefix_of(key.as_str());
                proof {
                    if has_prefix(key@, prefix@) {
                        assert(prefix@.len() <= key@.len());
                        if !(key@.len() > 0 && key@.last() == '/') {
                            assert(prefix@.len() == key@.len() + 1);
                        }
                    }
                }
                overlay_entries.remove_prefixed_except(prefix.as_str(), key.as_str());
                tombstones.insert_directory(key.clone());
                proof {
                    let expect = st.0.remove_keys(Set::new(|k: Seq<char>| descendant_key(key@, k)));
                    assert(overlay_entries.as_map() =~= expect);
                }
            }
            tombstones.remove_exact(key.as_str());
            overlay_entries.insert(key.clone(), (entry.duplicate(), generation));
            let after = count_visible_scope(
                &baseline_by_path,
                &overlay_entries,
                &tombstones,
                key.as_str(),
                replaces_directory,
            );
            visible_entry_count = visible_entry_count.saturating_sub(before).saturating_add(after);
            j = j + 1;
        }
        proof {
            assert(upserts@.take(upserts@.len() as int) =~= upserts@);
        }
        let values = overlay_values(&overlay_entries);
        proof {
            let ks = overlay_entries.keys();
            let m = overlay_entries.as_map();
            assert(ks.to_set() =~= m.dom());
            let chosen = choose|s: Seq<Seq<char>>| ascending(s) && s.to_set() == m.dom();
            lemma_ascending_same_set(chosen, ks);
            assert forall|i: int| 0 <= i < ks.len() implies #[trigger] m[ks[i]].0 == overlay_entries.vals()[i].0 by {
                lemma_index_of_ascending(ks, i);
            }
            assert(values@ =~= overlay_in_key_order(m));
        }
        let overlay = SearchIndex::from_entries(values);
        *self = LayeredSearchIndex {
            mode,
            baseline,
            baseline_by_path,
            overlay_entries,
            overlay,
            tombstones,
            generation,
            visible_entry_count,
        };
    }
}

/// The overlay entries, in key order.
fn overlay_values(overlay_entries: &StrMap<(IndexedEntry, u64)>) -> (r: Vec<IndexedEntry>)
    ensures
        r@ == Seq::new(overlay_entries.vals().len(), |i: int| overlay_entries.vals()[i].0),
        ascending(overlay_entries.keys()),
        overlay_entries.vals().len() == overlay_entries.keys().len(),
{
    let pairs = overlay_entries.pairs();
    let mut out: Vec<IndexedEntry> = Vec::new();
    let mut i: usize = 0;
    while i < pairs.len()
        invariant
            i <= pairs@.len(),
            pairs@.len() == overlay_entries.vals().len(),
            forall|k: int| 0 <= k < pairs@.len() ==> (#[trigger] pairs@[k]).1 == overlay_entries.vals()[k],
            out@.len() == i,
            forall|k: int| 0 <= k < i ==> #[trigger] out@[k] == overlay_entries.vals()[k].0,
        decreases pairs@.len() - i,
    {
        out.push(pairs[i].1.0.duplicate());
        i = i + 1;
    }
    proof {
        assert(out@ =~= Seq::new(overlay_entries.vals().len(), |i: int| overlay_entries.vals()[i].0));
    }
    out
}

impl LayeredSearchIndex {
    /// Installs `baseline` at `generation` and clears the delta state.
    fn install_baseline(&mut self, baseline: SearchIndex, generation: u64)
        ensures
            final(self).baseline_view() == baseline@,
            final(self).overlay_map() == Map::<Seq<char>, (IndexedEntry, u64)>::empty(),
            final(self).exact_tombstones() == Set::<Seq<char>>::empty(),
            final(self).directory_tombstones() == Set::<Seq<char>>::empty(),
            final(self).generation_spec() == generation,
            final(self).comparison_mode() == old(self).comparison_mode(),
    {
        let mode = self.mode;
        let baseline_by_path = index_baseline_keys(baseline.entries(), mode);
        let visible_entry_count = baseline_by_path.len();
        let overlay_entries: StrMap<(IndexedEntry, u64)> = StrMap::new();
        let overlay = SearchIndex::default();
        proof {
            assert(overlay@ =~= Seq::new(overlay_entries.vals().len(), |i: int| overlay_entries.vals()[i].0));
        }
        *self = LayeredSearchIndex {
            mode,
            baseline,
            baseline_by_path,
            overlay_entries,
            overlay,
            tombstones: PathTombstones::default(),
            generation,
            visible_entry_count,
        };
    }

    /// Replaces the baseline and clears the delta state, unless `generation` is
    /// older than this index's.
    pub fn replace_baseline_search_index(&mut self, baseline: SearchIndex, generation: u64)
        ensures
            generation < old(self).generation_spec() ==> *final(self) == *old(self),
            generation >= old(self).generation_spec() ==> {
                &&& final(self).baseline_view() == baseline@
                &&& final(self).overlay_map() == Map::<Seq<char>, (IndexedEntry, u64)>::empty()
                &&& final(self).exact_tombstones() == Set::<Seq<char>>::empty()
                &&& final(self).directory_tombstones() == Set::<Seq<char>>::empty()
                &&& final(self).generation_spec() == generation
                &&& final(self).comparison_mode() == old(self).comparison_mode()
            },
    {
        if generation < self.generation {
            return;
        }
        self.install_baseline(baseline, generation);
    }

    /// `replace_baseline_search_index` over the entries.
    pub fn replace_baseline(&mut self, entries: Vec<IndexedEntry>, generation: u64)
        requires
            candidate_build_fits(entries@, (u32::MAX - 1) as usize),
        ensures
            generation < old(self).generation_spec() ==> *final(self) == *old(self),
            generation >= old(self).generation_spec() ==> {
                &&& final(self).baseline_view() == entries@
                &&& final(self).overlay_map() == Map::<Seq<char>, (IndexedEntry, u64)>::empty()
                &&& final(self).exact_tombstones() == Set::<Seq<char>>::empty()
                &&& final(self).directory_tombstones() == Set::<Seq<char>>::empty()
                &&& final(self).generation_spec() == generation
                &&& final(self).comparison_mode() == old(self).comparison_mode()
            },
    {
        self.replace_baseline_search_index(SearchIndex::from_entries(entries), generation);
    }
}

/// The path keys of a list of entries.
pub open spec fn entry_keys(s: Seq<IndexedEntry>, mode: PathComparisonMode) -> Seq<Seq<char>> {
    Seq::new(s.len(), |i: int| path_key_spec(s[i].path@, mode))
}

impl LayeredSearchIndex {
    /// Every visible entry, once per path key, in increasing key order: the
    /// overlay entry where there is one, else the last baseline entry with that
    /// key when no tombstone hides it.
    pub fn materialized_entries(&self) -> (r: Vec<IndexedEntry>)
        ensures
            ascending(entry_keys(r@, self.comparison_mode())),
            forall|i: int| 0 <= i < r@.len() ==> self.visible(#[trigger] entry_keys(r@, self.comparison_mode())[i])
                && r@[i] == self.visible_entry(entry_keys(r@, self.comparison_mode())[i]),
            forall|k: Seq<char>| #[trigger] self.visible(k) ==> entry_keys(r@, self.comparison_mode()).contains(k),
    {
        proof {
            use_type_invariant(self);
        }
        let mode = self.mode;
        let entries = self.baseline.entries();
        let a_pairs = self.baseline_by_path.pairs();
        let b_pairs = self.overlay_entries.pairs();
        let ghost ak = self.baseline_by_path.keys();
        let ghost bk = self.overlay_entries.keys();
        let ghost bm = self.overlay_entries.as_map();
        let alen = a_pairs.len();
        let blen = b_pairs.len();
        let mut out: Vec<IndexedEntry> = Vec::new();
        let mut a: usize = 0;
        let mut b: usize = 0;
        while a < alen || b < blen
            invariant
                a <= alen,
                b <= blen,
                alen == ak.len(),
                blen == bk.len(),
                a_pairs@.len() == alen,
                b_pairs@.len() == blen,
                mode == self.comparison_mode(),
                entries@ == self.baseline_view(),
                ak == self.baseline_by_path.keys(),
                bk == self.overlay_entries.keys(),
                bm == self.overlay_map(),
                ascending(ak),
                ascending(bk),
                forall|i: int| 0 <= i < alen ==> (#[trigger] a_pairs@[i]).0@ == ak[i] && a_pairs@[i].1 == self.baseline_by_path.vals()[i],
                forall|i: int| 0 <= i < blen ==> (#[trigger] b_pairs@[i]).0@ == bk[i] && b_pairs@[i].1 == self.overlay_entries.vals()[i],
                self.baseline_by_path.vals().len() == alen,
                self.overlay_entries.vals().len() == blen,
                self.baseline_by_path.as_map() == baseline_positions(self.baseline_view(), mode),
                forall|k: Seq<char>| #[trigger] bm.contains_key(k) ==> path_key_spec(bm[k].0.path@, mode) == k,
                ascending(entry_keys(out@, mode)),
                out@.len() > 0 && a < alen ==> seq_lt(entry_keys(out@, mode).last(), ak[a as int]),
                out@.len() > 0 && b < blen ==> seq_lt(entry_keys(out@, mode).last(), bk[b as int]),
                forall|i: int| 0 <= i < out@.len() ==> self.visible(#[trigger] entry_keys(out@, mode)[i])
                    && out@[i] == self.visible_entry(entry_keys(out@, mode)[i]),
                forall|i: int| 0 <= i < a && !bm.contains_key(ak[i]) && !self.tombstoned(#[trigger] ak[i]) ==> entry_keys(out@, mode).contains(ak[i]),
                forall|i: int| 0 <= i < b ==> entry_keys(out@, mode).contains(#[trigger] bk[i]),
            decreases alen - a + blen - b,
        {
            let ghost before = out@;
            if a < alen {
                let key = a_pairs[a].0.as_str();
                let hidden = self.overlay_entries.contains_key(key) || self.tombstones.contains(key);
                if hidden {
                    proof {
                        if out@.len() > 0 && a + 1 < alen {
                            assert(seq_lt(ak[a as int], ak[a + 1]));
                            lemma_seq_lt_transitive(entry_keys(out@, mode).last(), ak[a as int], ak[a + 1]);
                        }
                    }
                    a = a + 1;
                    continue;
                }
            }
            let take_a = if a < alen {
                if b < blen {
                    let ka = chars_of(a_pairs[a].0.as_str());
                    let kb = chars_of(b_pairs[b].0.as_str());
                    lex_less(ka.as_slice(), kb.as_slice())
                } else {
                    true
                }
            } else {
                false
            };
            if take_a {
                let pos = a_pairs[a].1;
                let ghost k = ak[a as int];
                proof {
                    assert(self.baseline_by_path.as_map().contains_key(k));
                    lemma_last_key_position(self.baseline_view(), k, mode);
                    assert(self.baseline_by_path.as_map()[k] == self.baseline_by_path.vals()[a as int]) by {
                        lemma_index_of_ascending(ak, a as int);
                    }
                    assert(last_key_position(self.baseline_view(), k, mode) is Some);
                }
                out.push(entries[pos].duplicate());
                proof {
                    let ok = entry_keys(out@, mode);
                    assert(ok.last() == k);
                    assert(!bm.contains_key(k));
                    if b < blen {
                        lemma_seq_lt_total(k, bk[b as int]);
                        assert(seq_lt(k, bk[b as int]));
                    }
                    assert forall|x: int, y: int| 0 <= x < y < ok.len() implies seq_lt(#[trigger] ok[x], #[trigger] ok[y]) by {
                        if y < before.len() {
                            assert(ok[x] == entry_keys(before, mode)[x] && ok[y] == entry_keys(before, mode)[y]);
                        } else {
                            assert(ok[x] == entry_keys(before, mode)[x]);
                            if x < before.len() - 1 {
                                lemma_seq_lt_transitive(ok[x], entry_keys(before, mode).last(), k);
                            }
                        }
                    }
                    if a + 1 < alen {
                        assert(seq_lt(ak[a as int], ak[a + 1]));
                    }
                    assert forall|i: int| 0 <= i < out@.len() implies self.visible(#[trigger] ok[i]) && out@[i] == self.visible_entry(ok[i]) by {
                        if i < before.len() {
                            assert(ok[i] == entry_keys(before, mode)[i]);
                        }
                    }
                    assert(ok.contains(k)) by {
                        assert(ok[ok.len() - 1] == k);
                    }
                    assert forall|i: int| 0 <= i < a + 1 && !bm.contains_key(ak[i]) && !self.tombstoned(#[trigger] ak[i]) implies ok.contains(ak[i]) by {
                        if i < a {
                            let w = choose|w: int| 0 <= w < entry_keys(before, mode).len() && entry_keys(before, mode)[w] == ak[i];
                            assert(ok[w] == ak[i]);
                        }
                    }
                    assert forall|i: int| 0 <= i < b implies ok.contains(#[trigger] bk[i]) by {
                        let w = choose|w: int| 0 <= w < entry_keys(before, mode).len() && entry_keys(before, mode)[w] == bk[i];
                        assert(ok[w] == bk[i]);
                    }
                }
                a = a + 1;
            } else {
                let ghost k = bk[b as int];
                proof {
                    assert(bm.contains_key(k));
                    assert(bm[k] == self.overlay_entries.vals()[b as int]) by {
                        lemma_index_of_ascending(bk, b as int);
                    }
                }
                out.push(b_pairs[b].1.0.duplicate());
                proof {
                    let ok = entry_keys(out@, mode);
                    assert(ok.last() == k);
                    if a < alen {
                        let kk = ak[a as int];
                        lemma_seq_lt_total(kk, k);
                        if kk == k {
                            assert(bm.contains_key(kk));
                        }
                        assert(seq_lt(k, kk));
                    }
                    assert forall|x: int, y: int| 0 <= x < y < ok.len() implies seq_lt(#[trigger] ok[x], #[trigger] ok[y]) by {
                        if y < before.len() {
                            assert(ok[x] == entry_keys(before, mode)[x] && ok[y] == entry_keys(before, mode)[y]);
                        } else {
                            assert(ok[x] == entry_keys(before, mode)[x]);
                            if x < before.len() - 1 {
                                lemma_seq_lt_transitive(ok[x], entry_keys(before, mode).last(), k);
                            }
                        }
                    }
                    if b + 1 < blen {
                        assert(seq_lt(bk[b as int], bk[b + 1]));
                    }
                    assert forall|i: int| 0 <= i < out@.len() implies self.visible(#[trigger] ok[i]) && out@[i] == self.visible_entry(ok[i]) by {
                        if i < before.len() {
                            assert(ok[i] == entry_keys(before, mode)[i]);
                        }
                    }
                    assert(ok.contains(k)) by {
                        assert(ok[ok.len() - 1] == k);
                    }
                    assert forall|i: int| 0 <= i < a && !bm.contains_key(ak[i]) && !self.tombstoned(#[trigger] ak[i]) implies ok.contains(ak[i]) by {
                        let w = choose|w: int| 0 <= w < entry_keys(before, mode).len() && entry_keys(before, mode)[w] == ak[i];
                        assert(ok[w] == ak[i]);
                    }
                    assert forall|i: int| 0 <= i < b + 1 implies ok.contains(#[trigger] bk[i]) by {
                        if i < b {
                            let w = choose|w: int| 0 <= w < entry_keys(before, mode).len() && entry_keys(before, mode)[w] == bk[i];
                            assert(ok[w] == bk[i]);
                        }
                    }
                }
                b = b + 1;
            }
        }
        proof {
            let ok = entry_keys(out@, mode);
            assert forall|k: Seq<char>| #[trigger] self.visible(k) implies ok.contains(k) by {
                if bm.contains_key(k) {
                    let i = choose|i: int| 0 <= i < bk.len() && bk[i] == k;
                } else {
                    assert(self.base_kinds().contains_key(k));
                    assert(self.baseline_by_path.as_map().contains_key(k));
                    let i = choose|i: int| 0 <= i < ak.len() && ak[i] == k;
                }
            }
        }
        out
    }
}

/// What a search over both layers comes to.
#[derive(Debug, Clone, PartialEq, Eq)]
pub enum LayeredSearchResults {
    /// The query asks for file contents, which these layers do not hold.
    ContentIndexUnavailable,
    /// The matching entries: visible baseline ones first, then overlay ones,
    /// without repeating a path.
    Entries(Vec<IndexedEntry>),
}

/// Whether some entry of `list` has path `path`.
fn has_path(list: &Vec<IndexedEntry>, path: &str) -> (r: bool)
    ensures
        r == exists|i: int| 0 <= i < list@.len() && (#[trigger] list@[i]).path@ == path@,
{
    let p = chars_of(path);
    let mut i: usize = 0;
    while i < list.len()
        invariant
            i <= list@.len(),
            p@ == path@,
            forall|k: int| 0 <= k < i ==> (#[trigger] list@[k]).path@ != path@,
        decreases list@.len() - i,
    {
        let q = chars_of(list[i].path.as_str());
        if chars_eq(q.as_slice(), p.as_slice()) {
            return true;
        }
        i = i + 1;
    }
    false
}

/// No two entries share a path.
pub open spec fn distinct_paths(s: Seq<IndexedEntry>) -> bool {
    forall|a: int, b: int| 0 <= a < s.len() && 0 <= b < s.len() && a != b ==> (#[trigger] s[a]).path@ != (#[trigger] s[b]).path@
}

/// Some entry of `es` has path `p`.
pub open spec fn lists_path(es: Seq<IndexedEntry>, p: Seq<char>) -> bool {
    exists|k: int| 0 <= k < es.len() && (#[trigger] es[k]).path@ == p
}

/// `merged` after taking the entries of `xs` in order, skipping a path that is
/// already listed, until `limit` entries are listed.
pub open spec fn merged_results(xs: Seq<IndexedEntry>, limit: nat) -> Seq<IndexedEntry>
    decreases xs.len(),
{
    if xs.len() == 0 {
        Seq::empty()
    } else {
        let m = merged_results(xs.drop_last(), limit);
        if m.len() >= limit || lists_path(m, xs.last().path@) {
            m
        } else {
            m.push(xs.last())
        }
    }
}

/// The entries of `view` at the positions `pos`.
pub open spec fn entries_at(view: Seq<IndexedEntry>, pos: Seq<usize>) -> Seq<IndexedEntry> {
    Seq::new(pos.len(), |t: int| view[pos[t] as int])
}

/// `pos` is what a name and path search of one layer with this `budget` may
/// give: at most `budget` ascending positions of matching, visible entries;
/// nothing when the budget is zero or the query has no name or path filter;
/// and every visible match that the candidate index must recall, up to the
/// last position given, or all of them when fewer than `budget` came back.
pub open spec fn layer_hits(
    view: Seq<IndexedEntry>,
    pos: Seq<usize>,
    q: QueryModel,
    budget: nat,
    visible: spec_fn(IndexedEntry) -> bool,
) -> bool {
    &&& pos.len() <= budget
    &&& forall|a: int, b: int| 0 <= a < b < pos.len() ==> #[trigger] pos[a] < #[trigger] pos[b]
    &&& forall|k: int| 0 <= k < pos.len() ==> #[trigger] pos[k] < view.len()
    &&& forall|k: int| 0 <= k < pos.len() ==> query_matches(q, view[#[trigger] pos[k] as int]) && visible(view[pos[k] as int])
    &&& (budget == 0 || !query_has_filters(q)) ==> pos.len() == 0
    &&& query_has_filters(q) ==> forall|i: int|
        0 <= i < view.len() && query_complete(stored_models(view), i, q) && query_matches(q, #[trigger] view[i]) && visible(
            view[i],
        ) && (pos.len() < budget || (pos.len() > 0 && i < pos[pos.len() - 1])) ==> pos.contains(i as usize)
}

/// The most results a layered search gives: twice the budget, saturating.
pub open spec fn layered_limit(budget: usize) -> nat {
    if budget <= usize::MAX / 2 {
        (2 * budget) as nat
    } else {
        usize::MAX as nat
    }
}

/// Once the merge is full, later entries change nothing.
proof fn lemma_merged_saturates(xs: Seq<IndexedEntry>, k: int, limit: nat)
    requires
        0 <= k <= xs.len(),
        merged_results(xs.take(k), limit).len() >= limit,
    ensures
        merged_results(xs, limit) == merged_results(xs.take(k), limit),
    decreases xs.len() - k,
{
    if k < xs.len() {
        assert(xs.take(k + 1).drop_last() =~= xs.take(k));
        lemma_merged_saturates(xs, k + 1, limit);
    } else {
        assert(xs.take(k) =~= xs);
    }
}

/// Law: a merge that stops short of its limit lists the path of every entry it
/// was given.
pub proof fn lemma_short_merge_lists_every_path(xs: Seq<IndexedEntry>, limit: nat)
    ensures
        merged_results(xs, limit).len() < limit ==> forall|k: int|
            0 <= k < xs.len() ==> lists_path(merged_results(xs, limit), #[trigger] xs[k].path@),
    decreases xs.len(),
{
    if xs.len() > 0 {
        let rest = xs.drop_last();
        let m = merged_results(rest, limit);
        let full = merged_results(xs, limit);
        lemma_short_merge_lists_every_path(rest, limit);
        if full.len() < limit {
            assert(m.len() <= full.len());
            assert forall|k: int| 0 <= k < xs.len() implies lists_path(full, #[trigger] xs[k].path@) by {
                if k < rest.len() {
                    assert(rest[k] == xs[k]);
                    assert(lists_path(m, rest[k].path@));
                    let x = choose|x: int| 0 <= x < m.len() && (#[trigger] m[x]).path@ == rest[k].path@;
                    assert(full[x] == m[x]);
                } else if !lists_path(m, xs.last().path@) {
                    assert(full[m.len() as int] == xs.last());
                }
            }
        }
    }
}

impl LayeredSearchIndex {
    /// A search result entry is one this index shows: an overlay entry at its
    /// key, or a baseline entry whose key no overlay entry or tombstone covers.
    /// The overlay entries, in key order.
    pub closed spec fn overlay_view(&self) -> Seq<IndexedEntry> {
        self.overlay@
    }

    /// A baseline entry shows when no overlay entry or tombstone covers its key.
    pub open spec fn baseline_visible(&self, e: IndexedEntry) -> bool {
        !self.overlay_map().contains_key(path_key_spec(e.path@, self.comparison_mode())) && !self.tombstoned(
            path_key_spec(e.path@, self.comparison_mode()),
        )
    }

    /// `es` is the merge, baseline first, of what a search of each layer may
    /// give (`bp` of the visible baseline, `op` of the overlay), stopping at
    /// twice the budget.
    pub open spec fn merges_layer_hits(
        &self,
        query: Seq<char>,
        budget: usize,
        bp: Seq<usize>,
        op: Seq<usize>,
        es: Seq<IndexedEntry>,
    ) -> bool {
        &&& layer_hits(self.baseline_view(), bp, parse_spec(query), budget as nat, |e: IndexedEntry| self.baseline_visible(e))
        &&& layer_hits(self.overlay_view(), op, parse_spec(query), budget as nat, |e: IndexedEntry| true)
        &&& es == merged_results(
            entries_at(self.baseline_view(), bp) + entries_at(self.overlay_view(), op),
            layered_limit(budget),
        )
    }

    pub open spec fn shows(&self, e: IndexedEntry) -> bool {
        let k = path_key_spec(e.path@, self.comparison_mode());
        ||| self.overlay_map().contains_key(k) && self.overlay_map()[k].0 == e
        ||| self.baseline_view().contains(e) && !self.overlay_map().contains_key(k) && !self.tombstoned(k)
    }

    /// Searches both layers by name and path: at most `candidate_budget`
    /// matches from the visible baseline, then from the overlay, dropping
    /// repeated paths and stopping at twice the budget.
    pub fn search(&self, query: &str, candidate_budget: usize) -> (r: LayeredSearchResults)
        ensures
            r matches LayeredSearchResults::Entries(es) ==> exists|bp: Seq<usize>, op: Seq<usize>|
                #[trigger] self.merges_layer_hits(query@, candidate_budget, bp, op, es@),
            candidate_budget == 0 ==> (r matches LayeredSearchResults::Entries(es) && es@.len() == 0),
            r is ContentIndexUnavailable <==> (candidate_budget > 0 && parse_spec(query@).content_queries.len() > 0),
            match r {
                LayeredSearchResults::Entries(es) => {
                    &&& es@.len() <= 2 * candidate_budget
                    &&& forall|i: int, j: int| 0 <= i < j < es@.len() ==> (#[trigger] es@[i]).path@ != (#[trigger] es@[j]).path@
                    &&& forall|i: int| 0 <= i < es@.len() ==> query_matches(parse_spec(query@), #[trigger] es@[i]) && self.shows(es@[i])
                    &&& (es@.len() < candidate_budget && query_has_filters(parse_spec(query@)) && distinct_paths(
                        self.baseline_view(),
                    )) ==> {
                        &&& forall|i: int|
                            0 <= i < self.baseline_view().len() && query_complete(
                                stored_models(self.baseline_view()),
                                i,
                                parse_spec(query@),
                            ) && query_matches(parse_spec(query@), #[trigger] self.baseline_view()[i])
                                && !self.overlay_map().contains_key(
                                path_key_spec(self.baseline_view()[i].path@, self.comparison_mode()),
                            ) && !self.tombstoned(path_key_spec(self.baseline_view()[i].path@, self.comparison_mode()))
                                ==> lists_path(es@, self.baseline_view()[i].path@)
                        &&& forall|i: int|
                            0 <= i < self.overlay_view().len() && query_complete(
                                stored_models(self.overlay_view()),
                                i,
                                parse_spec(query@),
                            ) && query_matches(parse_spec(query@), #[trigger] self.overlay_view()[i]) ==> lists_path(
                                es@,
                                self.overlay_view()[i].path@,
                            )
                    }
                },
                _ => true,
            },
    {
        proof {
            use_type_invariant(self);
        }
        if candidate_budget == 0 {
            let none: Vec<IndexedEntry> = Vec::new();
            proof {
                let empty = Seq::<usize>::empty();
                assert(entries_at(self.baseline_view(), empty) + entries_at(self.overlay_view(), empty) =~= Seq::<
                    IndexedEntry,
                >::empty());
                assert(self.merges_layer_hits(query@, candidate_budget, empty, empty, none@));
            }
            return LayeredSearchResults::Entries(none);
        }
        let mode = self.mode;
        let never = || -> (c: bool)
            ensures
                !c,
        { false };
        proof {
            assert(forall|c: bool| call_ensures(never, (), c) ==> !c);
        }
        let visible = |entry: &IndexedEntry| -> (v: bool)
            ensures
                v == (!self.overlay_map().contains_key(path_key_spec(entry.path@, mode)) && !self.tombstoned(
                    path_key_spec(entry.path@, mode),
                )),
        {
            let key = normalize_path_text_key_for_mode(entry.path.as_str(), mode);
            !self.overlay_entries.contains_key(key.as_str()) && !self.tombstones.contains(key.as_str())
        };
        proof {
            assert(forall|e: &IndexedEntry, v: bool| call_ensures(visible, (e,), v) ==> v == (
                !self.overlay_map().contains_key(path_key_spec(e.path@, mode)) && !self.tombstoned(path_key_spec(e.path@, mode))));
        }
        let base_positions = match self.baseline.search_name_path(query, candidate_budget, never, visible) {
            NameSearchOutcome::Matches(p) => p,
            NameSearchOutcome::ContentIndexUnavailable => {
                return LayeredSearchResults::ContentIndexUnavailable;
            },
            NameSearchOutcome::Cancelled => {
                proof {
                    assert(false);
                }
                return LayeredSearchResults::Entries(Vec::new());
            },
        };
        let never2 = || -> (c: bool)
            ensures
                !c,
        { false };
        proof {
            assert(forall|c: bool| call_ensures(never2, (), c) ==> !c);
        }
        let everything = |entry: &IndexedEntry| -> (v: bool)
            ensures
                v,
        { true };
        proof {
            assert(forall|e: &IndexedEntry, v: bool| call_ensures(everything, (e,), v) ==> v);
        }
        let over_positions = match self.overlay.search_name_path(query, candidate_budget, never2, everything) {
            NameSearchOutcome::Matches(p) => p,
            NameSearchOutcome::ContentIndexUnavailable => {
                return LayeredSearchResults::ContentIndexUnavailable;
            },
            NameSearchOutcome::Cancelled => {
                proof {
                    assert(false);
                }
                return LayeredSearchResults::Entries(Vec::new());
            },
        };
        let max_results = if candidate_budget <= usize::MAX / 2 {
            candidate_budget * 2
        } else {
            usize::MAX
        };
        let ghost q = parse_spec(query@);
        let ghost distinct = distinct_paths(self.baseline_view());
        let base_entries = self.baseline.entries();
        let over_entries = self.overlay.entries();
        let ghost lim = layered_limit(candidate_budget);
        let ghost xs = entries_at(self.baseline_view(), base_positions@) + entries_at(self.overlay_view(), over_positions@);
        assert(max_results as nat == lim);
        let mut merged: Vec<IndexedEntry> = Vec::new();
        let mut full = false;
        let mut i: usize = 0;
        while i < base_positions.len() && !full
            invariant
                i <= base_positions@.len(),
                base_positions@.len() <= candidate_budget,
                candidate_budget > 0,
                max_results >= 2 * candidate_budget || max_results == usize::MAX,
                base_entries@ == self.baseline_view(),
                mode == self.comparison_mode(),
                distinct == distinct_paths(self.baseline_view()),
                forall|e: &IndexedEntry, v: bool| call_ensures(visible, (e,), v) ==> v == (
                    !self.overlay_map().contains_key(path_key_spec(e.path@, mode)) && !self.tombstoned(path_key_spec(e.path@, mode))),
                forall|k: int| 0 <= k < base_positions@.len() ==> #[trigger] base_positions@[k] < base_entries@.len(),
                forall|a: int, b: int| 0 <= a < b < base_positions@.len() ==> #[trigger] base_positions@[a] < #[trigger] base_positions@[b],
                forall|k: int| 0 <= k < base_positions@.len() ==> query_matches(q, base_entries@[#[trigger] base_positions@[k] as int]),
                forall|k: int| 0 <= k < base_positions@.len() ==> call_ensures(visible, (&base_entries@[#[trigger] base_positions@[k] as int],), true),
                merged@.len() <= i,
                full ==> merged@.len() >= max_results,
                !full ==> merged@.len() < max_results,
                max_results as nat == lim,
                xs == entries_at(self.baseline_view(), base_positions@) + entries_at(self.overlay_view(), over_positions@),
                merged@ == merged_results(xs.take(i as int), lim),
                distinct ==> merged@.len() == i,
                forall|t: int| 0 <= t < i ==> lists_path(merged@, base_entries@[#[trigger] base_positions@[t] as int].path@),
                forall|x: int| 0 <= x < merged@.len() ==> !self.overlay_map().contains_key(path_key_spec((#[trigger] merged@[x]).path@, mode)),
                distinct ==> forall|x: int| 0 <= x < merged@.len() ==> exists|t: int| 0 <= t < i && #[trigger] merged@[x] == base_entries@[base_positions@[t] as int],
                forall|x: int, y: int| 0 <= x < y < merged@.len() ==> (#[trigger] merged@[x]).path@ != (#[trigger] merged@[y]).path@,
                forall|x: int| 0 <= x < merged@.len() ==> query_matches(q, #[trigger] merged@[x]) && self.shows(merged@[x]),
            decreases base_positions@.len() - i,
        {
            let e = &base_entries[base_positions[i]];
            let ghost pi = base_positions@[i as int] as int;
            proof {
                let x = base_entries@[pi];
                assert(base_entries@.contains(x));
                assert(call_ensures(visible, (&x,), true));
                let k = path_key_spec(x.path@, mode);
                assert(!self.overlay_map().contains_key(k));
                assert(!self.tombstoned(k));
                assert(self.shows(x));
                assert(xs.take(i + 1).drop_last() =~= xs.take(i as int));
                assert(xs.take(i + 1).last() == xs[i as int]);
                assert(xs[i as int] == base_entries@[pi]);
            }
            let ghost before = merged@;
            if !has_path(&merged, e.path.as_str()) {
                merged.push(e.duplicate());
                proof {
                    assert(merged@[before.len() as int] == *e);
                }
                if merged.len() >= max_results {
                    full = true;
                }
            } else {
                proof {
                    if distinct {
                        let x = choose|x: int| 0 <= x < before.len() && (#[trigger] before[x]).path@ == e.path@;
                        let t = choose|t: int| 0 <= t < i && #[trigger] before[x] == base_entries@[base_positions@[t] as int];
                        assert(base_positions@[t] < base_positions@[i as int]);
                    }
                }
            }
            proof {
                assert forall|t: int| 0 <= t < i + 1 implies lists_path(merged@, base_entries@[#[trigger] base_positions@[t] as int].path@) by {
                    if t < i {
                        let x = choose|x: int| 0 <= x < before.len() && (#[trigger] before[x]).path@ == base_entries@[base_positions@[t] as int].path@;
                        assert(merged@[x] == before[x]);
                    } else if merged@.len() > before.len() {
                        assert(merged@[before.len() as int].path@ == e.path@);
                    }
                }
                if distinct {
                    assert forall|x: int| 0 <= x < merged@.len() implies exists|t: int| 0 <= t < i + 1 && #[trigger] merged@[x] == base_entries@[base_positions@[t] as int] by {
                        if x < before.len() {
                            let t = choose|t: int| 0 <= t < i && #[trigger] before[x] == base_entries@[base_positions@[t] as int];
                            assert(merged@[x] == before[x]);
                        } else {
                            assert(merged@[x] == base_entries@[base_positions@[i as int] as int]);
                        }
                    }
                }
            }
            i = i + 1;
        }
        let ghost base_count = merged@.len();
        let overlay_len = self.overlay_entries.len();
        let mut j: usize = 0;
        while j < over_positions.len() && !full
            invariant
                j <= over_positions@.len(),
                ascending(self.overlay_entries.keys()),
                self.overlay_entries.vals().len() == self.overlay_entries.keys().len(),
                over_positions@.len() <= candidate_budget,
                merged@.len() <= base_positions@.len() + j,
                base_positions@.len() <= candidate_budget,
                over_entries@ == self.overlay@,
                self.overlay@ == Seq::new(self.overlay_entries.vals().len(), |k: int| self.overlay_entries.vals()[k].0),
                forall|k: Seq<char>| #[trigger] self.overlay_entries.as_map().contains_key(k) ==> path_key_spec(
                    self.overlay_entries.as_map()[k].0.path@,
                    mode,
                ) == k,
                mode == self.comparison_mode(),
                distinct == distinct_paths(self.baseline_view()),
                base_entries@ == self.baseline_view(),
                forall|k: int| 0 <= k < over_positions@.len() ==> #[trigger] over_positions@[k] < over_entries@.len(),
                forall|a: int, b: int| 0 <= a < b < over_positions@.len() ==> #[trigger] over_positions@[a] < #[trigger] over_positions@[b],
                forall|k: int| 0 <= k < over_positions@.len() ==> query_matches(q, over_entries@[#[trigger] over_positions@[k] as int]),
                i == base_positions@.len() || full,
                !full ==> (distinct ==> merged@.len() == base_positions@.len() + j),
                full ==> merged@.len() >= max_results,
                !full ==> merged@.len() < max_results,
                i <= base_positions@.len(),
                max_results as nat == lim,
                xs == entries_at(self.baseline_view(), base_positions@) + entries_at(self.overlay_view(), over_positions@),
                merged@ == merged_results(xs.take(i + j), lim),
                max_results >= 2 * candidate_budget || max_results == usize::MAX,
                forall|t: int| 0 <= t < i ==> lists_path(merged@, base_entries@[#[trigger] base_positions@[t] as int].path@),
                forall|t: int| 0 <= t < j ==> lists_path(merged@, over_entries@[#[trigger] over_positions@[t] as int].path@),
                forall|x: int, y: int| 0 <= x < y < merged@.len() ==> (#[trigger] merged@[x]).path@ != (#[trigger] merged@[y]).path@,
                forall|x: int| 0 <= x < merged@.len() ==> query_matches(q, #[trigger] merged@[x]) && self.shows(merged@[x]),
                forall|x: int| 0 <= x < merged@.len() ==> {
                    ||| !self.overlay_map().contains_key(path_key_spec((#[trigger] merged@[x]).path@, mode))
                    ||| exists|t: int| 0 <= t < j && merged@[x] == over_entries@[over_positions@[t] as int]
                },
            decreases over_positions@.len() - j,
        {
            let p = over_positions[j];
            let e = &over_entries[p];
            proof {
                let ks = self.overlay_entries.keys();
                let pi = p as int;
                assert(ks.contains(ks[pi]));
                lemma_index_of_ascending(ks, pi);
                assert(self.overlay_entries.as_map().contains_key(ks[pi]));
                assert(self.overlay_entries.as_map()[ks[pi]] == self.overlay_entries.vals()[pi]);
                assert(*e == self.overlay_entries.vals()[pi].0);
                assert(path_key_spec(e.path@, mode) == ks[pi]);
                let k = base_positions@.len() + j;
                assert(xs.take(k + 1).drop_last() =~= xs.take(k));
                assert(xs.take(k + 1).last() == xs[k]);
                assert(xs[k] == over_entries@[pi]);
            }
            let ghost before = merged@;
            if !has_path(&merged, e.path.as_str()) {
                merged.push(e.duplicate());
                proof {
                    assert(merged@[before.len() as int] == *e);
                }
                if merged.len() >= max_results {
                    full = true;
                }
            } else {
                proof {
                    let x = choose|x: int| 0 <= x < before.len() && (#[trigger] before[x]).path@ == e.path@;
                    let ks = self.overlay_entries.keys();
                    assert(self.overlay_entries.as_map().contains_key(ks[p as int]));
                    if !self.overlay_map().contains_key(path_key_spec(before[x].path@, mode)) {
                        assert(path_key_spec(before[x].path@, mode) == path_key_spec(e.path@, mode));
                    } else {
                        let t = choose|t: int| 0 <= t < j && before[x] == over_entries@[over_positions@[t] as int];
                        let pt = over_positions@[t] as int;
                        lemma_index_of_ascending(ks, pt);
                        assert(ks.contains(ks[pt]));
                        assert(self.overlay_entries.as_map().contains_key(ks[pt]));
                        assert(self.overlay_entries.as_map()[ks[pt]] == self.overlay_entries.vals()[pt]);
                        assert(over_entries@[pt] == self.overlay_entries.vals()[pt].0);
                        assert(path_key_spec(over_entries@[pt].path@, mode) == ks[pt]);
                        assert(over_positions@[t] < over_positions@[j as int]);
                        lemma_ascending_distinct(ks);
                    }
                }
            }
            proof {
                assert forall|t: int| 0 <= t < i implies lists_path(merged@, base_entries@[#[trigger] base_positions@[t] as int].path@) by {
                    let x = choose|x: int| 0 <= x < before.len() && (#[trigger] before[x]).path@ == base_entries@[base_positions@[t] as int].path@;
                    assert(merged@[x] == before[x]);
                }
                assert forall|t: int| 0 <= t < j + 1 implies lists_path(merged@, over_entries@[#[trigger] over_positions@[t] as int].path@) by {
                    if t < j {
                        let x = choose|x: int| 0 <= x < before.len() && (#[trigger] before[x]).path@ == over_entries@[over_positions@[t] as int].path@;
                        assert(merged@[x] == before[x]);
                    } else if merged@.len() > before.len() {
                        assert(merged@[before.len() as int].path@ == e.path@);
                    }
                }
                assert forall|x: int| 0 <= x < merged@.len() implies {
                    ||| !self.overlay_map().contains_key(path_key_spec((#[trigger] merged@[x]).path@, mode))
                    ||| exists|t: int| 0 <= t < j + 1 && merged@[x] == over_entries@[over_positions@[t] as int]
                } by {
                    if x < before.len() {
                        assert(merged@[x] == before[x]);
                    } else {
                        assert(merged@[x] == over_entries@[over_positions@[j as int] as int]);
                    }
                }
            }
            j = j + 1;
        }
        proof {
            if full {
                lemma_merged_saturates(xs, i + j, lim);
            } else {
                assert(xs.take(i + j) =~= xs);
            }
            assert(self.baseline@ == self.baseline_view());
            let bv = |e: IndexedEntry| self.baseline_visible(e);
            assert forall|k: int| 0 <= k < base_positions@.len() implies bv(self.baseline_view()[#[trigger] base_positions@[k] as int]) by {
                assert(call_ensures(visible, (&base_entries@[base_positions@[k] as int],), true));
            }
            assert forall|x: int|
                query_has_filters(q) && 0 <= x < self.baseline_view().len() && query_complete(stored_models(self.baseline_view()), x, q)
                    && query_matches(q, #[trigger] self.baseline_view()[x]) && bv(self.baseline_view()[x]) && (
                base_positions@.len() < candidate_budget || (base_positions@.len() > 0 && x < base_positions@[base_positions@.len() - 1]))
                    implies base_positions@.contains(x as usize) by {
                if !base_positions@.contains(x as usize) {
                    assert(call_ensures(visible, (&self.baseline_view()[x],), false));
                }
            }
            assert(layer_hits(self.baseline_view(), base_positions@, q, candidate_budget as nat, bv));
            let ov = |e: IndexedEntry| true;
            assert forall|x: int|
                query_has_filters(q) && 0 <= x < self.overlay_view().len() && query_complete(stored_models(self.overlay_view()), x, q)
                    && query_matches(q, #[trigger] self.overlay_view()[x]) && ov(self.overlay_view()[x]) && (
                over_positions@.len() < candidate_budget || (over_positions@.len() > 0 && x < over_positions@[over_positions@.len() - 1]))
                    implies over_positions@.contains(x as usize) by {
                if !over_positions@.contains(x as usize) {
                    assert(call_ensures(everything, (&self.overlay_view()[x],), false));
                }
            }
            assert(layer_hits(self.overlay_view(), over_positions@, q, candidate_budget as nat, ov));
            assert(self.merges_layer_hits(query@, candidate_budget, base_positions@, over_positions@, merged@));
        }
        proof {
            if merged@.len() < candidate_budget && query_has_filters(q) && distinct {
                assert(!full);
                assert(base_positions@.len() < candidate_budget);
                assert(over_positions@.len() < candidate_budget);
                assert forall|k: int|
                    0 <= k < self.baseline_view().len() && query_complete(stored_models(self.baseline_view()), k, q)
                        && query_matches(q, #[trigger] self.baseline_view()[k]) && !self.overlay_map().contains_key(
                        path_key_spec(self.baseline_view()[k].path@, self.comparison_mode()),
                    ) && !self.tombstoned(path_key_spec(self.baseline_view()[k].path@, self.comparison_mode()))
                        implies lists_path(merged@, self.baseline_view()[k].path@) by {
                    assert(self.baseline@ == self.baseline_view());
                    if !base_positions@.contains(k as usize) {
                        assert(call_ensures(visible, (&self.baseline_view()[k],), false));
                    }
                    let t = choose|t: int| 0 <= t < base_positions@.len() && base_positions@[t] == k as usize;
                    assert(lists_path(merged@, base_entries@[base_positions@[t] as int].path@));
                }
                assert forall|k: int|
                    0 <= k < self.overlay_view().len() && query_complete(stored_models(self.overlay_view()), k, q)
                        && query_matches(q, #[trigger] self.overlay_view()[k]) implies lists_path(
                        merged@,
                        self.overlay_view()[k].path@,
                    ) by {
                    if !over_positions@.contains(k as usize) {
                        assert(call_ensures(everything, (&self.overlay_view()[k],), false));
                    }
                    let t = choose|t: int| 0 <= t < over_positions@.len() && over_positions@[t] == k as usize;
                    assert(lists_path(merged@, over_entries@[over_positions@[t] as int].path@));
                }
            }
        }
        LayeredSearchResults::Entries(merged)
    }
}

/// The non-empty roots of the entries, in order.
pub open spec fn entry_roots(s: Seq<IndexedEntry>) -> Seq<Seq<char>>
    decreases s.len(),
{
    if s.len() == 0 {
        Seq::empty()
    } else if s.last().root@.len() > 0 {
        entry_roots(s.drop_last()).push(s.last().root@)
    } else {
        entry_roots(s.drop_last())
    }
}

/// Adds the non-empty roots of `entries` to `roots`, in order.
fn add_roots(roots: &mut PathSet, entries: &[IndexedEntry])
    requires
        sorted_paths(old(roots).listed()),
    ensures
        sorted_paths(final(roots).listed()),
        final(roots).listed().to_set() == set_add_paths(old(roots).listed().to_set(), entry_roots(entries@)),
{
    let ghost start = roots.listed().to_set();
    let mut i: usize = 0;
    proof {
        assert(entries@.take(0) =~= Seq::<IndexedEntry>::empty());
    }
    while i < entries.len()
        invariant
            i <= entries@.len(),
            roots.listed().to_set() == set_add_paths(start, entry_roots(entries@.take(i as int))),
            sorted_paths(roots.listed()),
        decreases entries@.len() - i,
    {
        proof {
            assert(entries@.take(i + 1).drop_last() =~= entries@.take(i as int));
            assert(entries@.take(i + 1).last() == entries@[i as int]);
        }
        let ghost er = entry_roots(entries@.take(i as int));
        if !entries[i].root.as_str().is_empty() {
            roots.insert(entries[i].root.clone());
            proof {
                assert(entry_roots(entries@.take(i + 1)) == er.push(entries@[i as int].root@));
                assert(er.push(entries@[i as int].root@).drop_last() =~= er);
            }
        } else {
            proof {
                assert(entry_roots(entries@.take(i + 1)) == er);
            }
        }
        i = i + 1;
    }
    proof {
        assert(entries@.take(entries@.len() as int) =~= entries@);
    }
}

impl LayeredSearchIndex {
    /// The roots of the baseline and overlay entries, each path once, in path order.
    pub fn watched_roots(&self) -> (r: Vec<String>)
        ensures
            sorted_paths(strings_view(r@)),
            strings_view(r@).to_set() == set_add_paths(
                set_add_paths(Set::<Seq<char>>::empty(), entry_roots(self.baseline_view())),
                entry_roots(overlay_in_key_order(self.overlay_map())),
            ),
    {
        proof {
            use_type_invariant(self);
        }
        let mut roots = PathSet::new();
        proof {
            assert(roots.listed().to_set() =~= Set::<Seq<char>>::empty());
        }
        add_roots(&mut roots, self.baseline.entries());
        let values = overlay_values(&self.overlay_entries);
        proof {
            let ks = self.overlay_entries.keys();
            let m = self.overlay_entries.as_map();
            assert(ks.to_set() =~= m.dom());
            let chosen = choose|s: Seq<Seq<char>>| ascending(s) && s.to_set() == m.dom();
            lemma_ascending_same_set(chosen, ks);
            assert forall|i: int| 0 <= i < ks.len() implies #[trigger] m[ks[i]].0 == self.overlay_entries.vals()[i].0 by {
                lemma_index_of_ascending(ks, i);
            }
            assert(values@ =~= overlay_in_key_order(m));
        }
        add_roots(&mut roots, values.as_slice());
        roots.take_all()
    }
}

/// The delta state and generation after applying each delta of `deltas` in
/// turn, skipping those not newer than the generation reached.
pub open spec fn tail_applied(
    st: (Map<Seq<char>, (IndexedEntry, u64)>, Set<Seq<char>>, Set<Seq<char>>),
    gen: u64,
    base: Map<Seq<char>, IndexedEntryKind>,
    deltas: Seq<CommittedIndexDelta>,
    mode: PathComparisonMode,
) -> ((Map<Seq<char>, (IndexedEntry, u64)>, Set<Seq<char>>, Set<Seq<char>>), u64)
    decreases deltas.len(),
{
    if deltas.len() == 0 {
        (st, gen)
    } else {
        let prev = tail_applied(st, gen, base, deltas.drop_last(), mode);
        let d = deltas.last();
        if d.generation > prev.1 {
            (
                upserts_applied(
                    removals_applied(prev.0, base, removal_keys(d.removals@, mode)),
                    base,
                    d.upserts@,
                    d.generation,
                    mode,
                ),
                d.generation,
            )
        } else {
            prev
        }
    }
}

/// The generations of `tail` count up one by one from after `start`,
/// saturating at the largest generation.
pub open spec fn tail_consecutive(tail: Seq<CommittedIndexDelta>, start: u64) -> bool {
    forall|k: int| 0 <= k < tail.len() ==> (#[trigger] tail[k]).generation == (if start + k + 1 > u64::MAX {
        u64::MAX as int
    } else {
        start + k + 1
    })
}

/// The generation a tail brings the index to: its last delta's, or `start`.
pub open spec fn tail_generation(tail: Seq<CommittedIndexDelta>, start: u64) -> u64 {
    if tail.len() == 0 {
        start
    } else {
        tail.last().generation
    }
}

/// No delta state yet.
pub open spec fn empty_delta_state() -> (Map<Seq<char>, (IndexedEntry, u64)>, Set<Seq<char>>, Set<Seq<char>>) {
    (Map::empty(), Set::empty(), Set::empty())
}

impl CommittedIndexDelta {
    /// A field-by-field copy.
    pub fn duplicate(&self) -> (r: Self)
        ensures
            r.generation == self.generation,
            r.upserts@ == self.upserts@,
            r.removals@ == self.removals@,
    {
        let mut upserts: Vec<IndexedEntry> = Vec::new();
        let mut i: usize = 0;
        while i < self.upserts.len()
            invariant
                i <= self.upserts@.len(),
                upserts@ == self.upserts@.take(i as int),
            decreases self.upserts@.len() - i,
        {
            upserts.push(self.upserts[i].duplicate());
            proof {
                assert(self.upserts@.take(i + 1) =~= self.upserts@.take(i as int).push(self.upserts@[i as int]));
            }
            i = i + 1;
        }
        let mut removals: Vec<String> = Vec::new();
        let mut j: usize = 0;
        while j < self.removals.len()
            invariant
                j <= self.removals@.len(),
                removals@ == self.removals@.take(j as int),
            decreases self.removals@.len() - j,
        {
            removals.push(self.removals[j].clone());
            proof {
                assert(self.removals@.take(j + 1) =~= self.removals@.take(j as int).push(self.removals@[j as int]));
            }
            j = j + 1;
        }
        proof {
            assert(self.upserts@.take(self.upserts@.len() as int) =~= self.upserts@);
            assert(self.removals@.take(self.removals@.len() as int) =~= self.removals@);
        }
        CommittedIndexDelta { generation: self.generation, upserts, removals }
    }
}

impl LayeredSearchIndex {
    /// The kept count of visible entries.
    pub fn entry_count(&self) -> (r: usize)
        ensures
            r == self.counted(),
    {
        self.visible_entry_count
    }

    /// Installs `baseline` at `baseline_generation` and replays `tail` over it,
    /// when the tail's generations follow on one by one and it reaches at
    /// least this index's generation; otherwise changes nothing.
    pub fn replace_baseline_with_authoritative_tail(
        &mut self,
        baseline: SearchIndex,
        baseline_generation: u64,
        tail: &[CommittedIndexDelta],
    ) -> (r: bool)
        requires
            tail_consecutive(tail@, baseline_generation) && tail_generation(tail@, baseline_generation)
                >= old(self).generation_spec() ==> forall|k: int|
                0 <= k <= tail@.len() ==> candidate_build_fits(
                    overlay_in_key_order(
                        #[trigger] tail_applied(
                            empty_delta_state(),
                            baseline_generation,
                            baseline_kinds(baseline@, old(self).comparison_mode()),
                            tail@.take(k),
                            old(self).comparison_mode(),
                        ).0.0,
                    ),
                    (u32::MAX - 1) as usize,
                ),
        ensures
            r == (tail_consecutive(tail@, baseline_generation) && tail_generation(tail@, baseline_generation)
                >= old(self).generation_spec()),
            !r ==> *final(self) == *old(self),
            r ==> {
                &&& final(self).baseline_view() == baseline@
                &&& final(self).comparison_mode() == old(self).comparison_mode()
                &&& (final(self).delta_state(), final(self).generation_spec()) == tail_applied(
                    empty_delta_state(),
                    baseline_generation,
                    baseline_kinds(baseline@, old(self).comparison_mode()),
                    tail@,
                    old(self).comparison_mode(),
                )
            },
    {
        let mut expected = baseline_generation.saturating_add(1);
        let mut k: usize = 0;
        while k < tail.len()
            invariant
                k <= tail@.len(),
                expected == (if baseline_generation + k + 1 > u64::MAX {
                    u64::MAX as int
                } else {
                    baseline_generation + k + 1
                }),
                forall|i: int| 0 <= i < k ==> (#[trigger] tail@[i]).generation == (if baseline_generation + i + 1
                    > u64::MAX {
                    u64::MAX as int
                } else {
                    baseline_generation + i + 1
                }),
            decreases tail@.len() - k,
        {
            if tail[k].generation != expected {
                return false;
            }
            expected = expected.saturating_add(1);
            k = k + 1;
        }
        let authoritative = if tail.len() == 0 {
            baseline_generation
        } else {
            tail[tail.len() - 1].generation
        };
        if authoritative < self.generation {
            return false;
        }
        let ghost mode = self.comparison_mode();
        let ghost base = baseline_kinds(baseline@, mode);
        let ghost baseline_view = baseline@;
        self.install_baseline(baseline, baseline_generation);
        proof {
            assert(self.delta_state() =~= empty_delta_state());
            assert(tail@.take(0) =~= Seq::<CommittedIndexDelta>::empty());
        }
        let mut j: usize = 0;
        while j < tail.len()
            invariant
                j <= tail@.len(),
                self.baseline_view() == baseline_view,
                self.comparison_mode() == mode,
                base == baseline_kinds(baseline_view, mode),
                (self.delta_state(), self.generation_spec()) == tail_applied(
                    empty_delta_state(),
                    baseline_generation,
                    base,
                    tail@.take(j as int),
                    mode,
                ),
                forall|i: int| 0 <= i <= tail@.len() ==> candidate_build_fits(
                    overlay_in_key_order(
                        #[trigger] tail_applied(
                            empty_delta_state(),
                            baseline_generation,
                            base,
                            tail@.take(i),
                            mode,
                        ).0.0,
                    ),
                    (u32::MAX - 1) as usize,
                ),
            decreases tail@.len() - j,
        {
            let delta = tail[j].duplicate();
            proof {
                let tj = tail@[j as int];
                assert(tail@.take(j + 1).drop_last() =~= tail@.take(j as int));
                assert(tail@.take(j + 1).last() == tj);
                let reached = tail_applied(empty_delta_state(), baseline_generation, base, tail@.take(j + 1), mode);
                assert(self.base_kinds() == base);
                if delta.generation > self.generation_spec() {
                    assert(reached.0 == self.delta_outcome(delta));
                }
            }
            let ghost before = *self;
            let ghost d = delta;
            self.apply_delta(delta);
            proof {
                let tj = tail@[j as int];
                let reached = tail_applied(empty_delta_state(), baseline_generation, base, tail@.take(j + 1), mode);
                if d.generation > before.generation_spec() {
                    assert(reached.0 == before.delta_outcome(d));
                } else {
                    assert(*self == before);
                }
            }
            j = j + 1;
        }
        proof {
            assert(tail@.take(tail@.len() as int) =~= tail@);
        }
        true
    }
}

// ---------------------------------------------------------------------------
// Laws of the layered index
// ---------------------------------------------------------------------------

/// A path key as keys are normalized: not empty, and ending in `/` only when it
/// is the root.
pub open spec fn normalized_key(a: Seq<char>) -> bool {
    a.len() > 0 && (a.len() == 1 || a.last() != '/')
}

/// Whatever directory tombstone hides `a` hides every key below `a`.
pub proof fn lemma_directory_tombstone_covers_descendants(dirs: Set<Seq<char>>, a: Seq<char>, x: Seq<char>)
    requires
        dir_covers(dirs, a),
        normalized_key(a),
        descendant_key(a, x),
    ensures
        dir_covers(dirs, x),
    decreases x.len(),
{
    if dirs.contains(x) {
        return;
    }
    let d = descendant_prefix(a);
    assert(x.subrange(0, d.len() as int) == d);
    lemma_last_index(x, '/');
    // `x` holds a separator right after `a` (or is below the root).
    let sep_at: int = if a.len() == 1 && a.last() == '/' { 0 } else { a.len() as int };
    assert(x[sep_at] == '/') by {
        if !(a.len() == 1 && a.last() == '/') {
            assert(d == a.push('/'));
            assert(x.subrange(0, d.len() as int)[a.len() as int] == '/');
        } else {
            assert(d == a);
            assert(x.subrange(0, 1)[0] == '/');
        }
    }
    let k = last_index_of(x, '/')->0;
    assert(k >= sep_at);
    lemma_parent_shorter(x);
    if a.len() == 1 && a.last() == '/' {
        assert(a =~= seq!['/']);
        assert(x != seq!['/']);
        if k == 0 {
            assert(parent_key(x) == Some(seq!['/']));
            assert(seq!['/'].len() < x.len());
        } else {
            let p = x.take(k);
            assert(parent_key(x) == Some(p));
            assert(p[0] == '/');
            if p =~= seq!['/'] {
            } else {
                assert(p.subrange(0, 1) =~= seq!['/']);
                assert(descendant_key(a, p));
                lemma_directory_tombstone_covers_descendants(dirs, a, p);
            }
            assert(dir_covers(dirs, p));
        }
    } else {
        assert(k > 0);
        let p = x.take(k);
        assert(parent_key(x) == Some(p));
        if k == a.len() {
            assert(p =~= x.subrange(0, a.len() as int));
            assert(x.subrange(0, a.len() as int) =~= d.subrange(0, a.len() as int));
            assert(p =~= a);
            assert(dir_covers(dirs, p));
        } else {
            assert(p.subrange(0, d.len() as int) =~= x.subrange(0, d.len() as int));
            assert(p != a);
            assert(descendant_key(a, p));
            lemma_directory_tombstone_covers_descendants(dirs, a, p);
        }
        assert(dir_covers(dirs, p));
    }
}

/// Every key of `d` that lies at `r` or below is hidden by `r`.
proof fn lemma_cover_after_directory(dirs: Set<Seq<char>>, r: Seq<char>, k: Seq<char>)
    requires
        dir_covers(dirs, k),
        normalized_key(r),
    ensures
        dir_covers(without_scope(dirs, r).insert(r), k),
    decreases k.len(),
{
    let nd = without_scope(dirs, r).insert(r);
    if dirs.contains(k) {
        if k == r {
            assert(nd.contains(k));
        } else if has_prefix(k, descendant_prefix(r)) {
            assert(nd.contains(r));
            assert(descendant_key(r, k));
            lemma_directory_tombstone_covers_descendants(nd, r, k);
        } else {
            assert(nd.contains(k));
        }
    } else {
        let p = parent_key(k)->0;
        lemma_cover_after_directory(dirs, r, p);
    }
}

/// `k` is out of the overlay and hidden by a tombstone.
pub open spec fn key_hidden(
    st: (Map<Seq<char>, (IndexedEntry, u64)>, Set<Seq<char>>, Set<Seq<char>>),
    k: Seq<char>,
) -> bool {
    !st.0.contains_key(k) && (st.1.contains(k) || dir_covers(st.2, k))
}

proof fn lemma_dir_covers_grows(d1: Set<Seq<char>>, d2: Set<Seq<char>>, k: Seq<char>)
    requires
        dir_covers(d1, k),
        d1.subset_of(d2),
    ensures
        dir_covers(d2, k),
    decreases k.len(),
{
    if !d1.contains(k) {
        lemma_dir_covers_grows(d1, d2, parent_key(k)->0);
    }
}

/// Recording a removed subtree at `r` keeps `k` hidden by some tombstone.
proof fn lemma_tombstone_directory_keeps_hidden(exact: Set<Seq<char>>, dirs: Set<Seq<char>>, r: Seq<char>, k: Seq<char>)
    requires
        exact.contains(k) || dir_covers(dirs, k),
        normalized_key(r),
    ensures
        ({
            let t = tombstone_directory(exact, dirs, r);
            t.0.contains(k) || dir_covers(t.1, k)
        }),
{
    if !dir_covers(dirs, r) {
        let nd = without_scope(dirs, r).insert(r);
        if dir_covers(dirs, k) {
            lemma_cover_after_directory(dirs, r, k);
        } else if !without_scope(exact, r).contains(k) {
            assert(nd.contains(r));
            if k == r {
            } else {
                assert(descendant_key(r, k));
                lemma_directory_tombstone_covers_descendants(nd, r, k);
            }
        }
    }
}

/// A removal keeps every hidden key hidden.
proof fn lemma_removal_keeps_hidden(
    st: (Map<Seq<char>, (IndexedEntry, u64)>, Set<Seq<char>>, Set<Seq<char>>),
    base: Map<Seq<char>, IndexedEntryKind>,
    r: Seq<char>,
    k: Seq<char>,
)
    requires
        key_hidden(st, k),
        normalized_key(r),
    ensures
        key_hidden(after_removal(st, base, r), k),
{
    if is_directory_key(st.0, st.2, base, r) {
        lemma_tombstone_directory_keeps_hidden(st.1, st.2, r, k);
    } else if !dir_covers(st.2, r) {
        assert(st.1.insert(r).contains(k) || dir_covers(st.2, k));
    }
}

/// A removal hides the key it removes.
proof fn lemma_removal_hides(
    st: (Map<Seq<char>, (IndexedEntry, u64)>, Set<Seq<char>>, Set<Seq<char>>),
    base: Map<Seq<char>, IndexedEntryKind>,
    r: Seq<char>,
)
    ensures
        key_hidden(after_removal(st, base, r), r),
{
    let out = after_removal(st, base, r);
    if is_directory_key(st.0, st.2, base, r) {
        assert(key_matches(r, r));
        if !dir_covers(st.2, r) {
            assert(out.2.contains(r));
        }
    }
}

/// An upsert at another key keeps a hidden key hidden.
proof fn lemma_upsert_keeps_hidden(
    st: (Map<Seq<char>, (IndexedEntry, u64)>, Set<Seq<char>>, Set<Seq<char>>),
    base: Map<Seq<char>, IndexedEntryKind>,
    e: IndexedEntry,
    gen: u64,
    mode: PathComparisonMode,
    k: Seq<char>,
)
    requires
        key_hidden(st, k),
        normalized_key(path_key_spec(e.path@, mode)),
        path_key_spec(e.path@, mode) != k,
    ensures
        key_hidden(after_upsert(st, base, e, gen, mode), k),
{
    let r = path_key_spec(e.path@, mode);
    if e.kind != IndexedEntryKind::Directory && is_directory_key(st.0, st.2, base, r) {
        lemma_tombstone_directory_keeps_hidden(st.1, st.2, r, k);
    }
}

/// Removals keep hidden keys hidden.
proof fn lemma_removals_keep_hidden(
    st: (Map<Seq<char>, (IndexedEntry, u64)>, Set<Seq<char>>, Set<Seq<char>>),
    base: Map<Seq<char>, IndexedEntryKind>,
    keys: Seq<Seq<char>>,
    k: Seq<char>,
)
    requires
        key_hidden(st, k),
        forall|j: int| 0 <= j < keys.len() ==> normalized_key(#[trigger] keys[j]),
    ensures
        key_hidden(removals_applied(st, base, keys), k),
    decreases keys.len(),
{
    if keys.len() > 0 {
        lemma_removals_keep_hidden(st, base, keys.drop_last(), k);
        lemma_removal_keeps_hidden(removals_applied(st, base, keys.drop_last()), base, keys.last(), k);
    }
}

/// Upserts at other keys keep hidden keys hidden.
proof fn lemma_upserts_keep_hidden(
    st: (Map<Seq<char>, (IndexedEntry, u64)>, Set<Seq<char>>, Set<Seq<char>>),
    base: Map<Seq<char>, IndexedEntryKind>,
    es: Seq<IndexedEntry>,
    gen: u64,
    mode: PathComparisonMode,
    k: Seq<char>,
)
    requires
        key_hidden(st, k),
        forall|j: int| 0 <= j < es.len() ==> normalized_key(path_key_spec(#[trigger] es[j].path@, mode)),
        forall|j: int| 0 <= j < es.len() ==> path_key_spec(#[trigger] es[j].path@, mode) != k,
    ensures
        key_hidden(upserts_applied(st, base, es, gen, mode), k),
    decreases es.len(),
{
    if es.len() > 0 {
        lemma_upserts_keep_hidden(st, base, es.drop_last(), gen, mode, k);
        lemma_upsert_keeps_hidden(upserts_applied(st, base, es.drop_last(), gen, mode), base, es.last(), gen, mode, k);
    }
}

/// Removals hide each key they remove.
proof fn lemma_removals_hide(
    st: (Map<Seq<char>, (IndexedEntry, u64)>, Set<Seq<char>>, Set<Seq<char>>),
    base: Map<Seq<char>, IndexedEntryKind>,
    keys: Seq<Seq<char>>,
    i: int,
)
    requires
        0 <= i < keys.len(),
        forall|j: int| 0 <= j < keys.len() ==> normalized_key(#[trigger] keys[j]),
    ensures
        key_hidden(removals_applied(st, base, keys), keys[i]),
    decreases keys.len(),
{
    if i == keys.len() - 1 {
        lemma_removal_hides(removals_applied(st, base, keys.drop_last()), base, keys.last());
    } else {
        lemma_removals_hide(st, base, keys.drop_last(), i);
        lemma_removal_keeps_hidden(removals_applied(st, base, keys.drop_last()), base, keys.last(), keys[i]);
    }
}

/// Law: after a delta, every path it removes and no upsert of it writes again
/// is out of the overlay and hidden by a tombstone, so no entry at it is
/// visible. (Path keys are taken as normalized: not empty, no trailing `/`
/// but at the root.)
pub proof fn lemma_delta_hides_removed_paths(idx: LayeredSearchIndex, delta: CommittedIndexDelta, i: int)
    requires
        0 <= i < delta.removals@.len(),
        forall|j: int| 0 <= j < delta.removals@.len() ==> normalized_key(
            #[trigger] removal_keys(delta.removals@, idx.comparison_mode())[j],
        ),
        forall|j: int| 0 <= j < delta.upserts@.len() ==> normalized_key(
            path_key_spec(#[trigger] delta.upserts@[j].path@, idx.comparison_mode()),
        ),
        forall|j: int| 0 <= j < delta.upserts@.len() ==> path_key_spec(#[trigger] delta.upserts@[j].path@, idx.comparison_mode())
            != removal_keys(delta.removals@, idx.comparison_mode())[i],
    ensures
        key_hidden(idx.delta_outcome(delta), removal_keys(delta.removals@, idx.comparison_mode())[i]),
{
    let mode = idx.comparison_mode();
    let keys = removal_keys(delta.removals@, mode);
    let k = keys[i];
    lemma_removals_hide(idx.delta_state(), idx.base_kinds(), keys, i);
    lemma_upserts_keep_hidden(
        removals_applied(idx.delta_state(), idx.base_kinds(), keys),
        idx.base_kinds(),
        delta.upserts@,
        delta.generation,
        mode,
        k,
    );
}

/// An upsert stays in the overlay through later upserts that neither write
/// its key nor replace a directory above it.
proof fn lemma_upserts_keep_entry(
    st: (Map<Seq<char>, (IndexedEntry, u64)>, Set<Seq<char>>, Set<Seq<char>>),
    base: Map<Seq<char>, IndexedEntryKind>,
    es: Seq<IndexedEntry>,
    gen: u64,
    mode: PathComparisonMode,
    i: int,
)
    requires
        0 <= i < es.len(),
        forall|j: int| i < j < es.len() ==> path_key_spec(#[trigger] es[j].path@, mode) != path_key_spec(es[i].path@, mode)
            && !descendant_key(path_key_spec(es[j].path@, mode), path_key_spec(es[i].path@, mode)),
    ensures
        ({
            let out = upserts_applied(st, base, es, gen, mode).0;
            let k = path_key_spec(es[i].path@, mode);
            out.contains_key(k) && out[k] == (es[i], gen)
        }),
    decreases es.len(),
{
    if i < es.len() - 1 {
        lemma_upserts_keep_entry(st, base, es.drop_last(), gen, mode, i);
        assert(es.drop_last()[i] == es[i]);
        let j = es.len() - 1;
        assert(path_key_spec(es[j].path@, mode) != path_key_spec(es[i].path@, mode));
    }
}

/// Law: after a delta, each upserted entry sits in the overlay at its path key
/// with the delta's generation, and so is the entry visible there, unless a
/// later upsert of the same delta writes the same key or a key above it.
pub proof fn lemma_delta_upserts_are_visible(idx: LayeredSearchIndex, delta: CommittedIndexDelta, i: int)
    requires
        0 <= i < delta.upserts@.len(),
        forall|j: int| i < j < delta.upserts@.len() ==> path_key_spec(#[trigger] delta.upserts@[j].path@, idx.comparison_mode())
            != path_key_spec(delta.upserts@[i].path@, idx.comparison_mode()) && !descendant_key(
            path_key_spec(delta.upserts@[j].path@, idx.comparison_mode()),
            path_key_spec(delta.upserts@[i].path@, idx.comparison_mode()),
        ),
    ensures
        ({
            let k = path_key_spec(delta.upserts@[i].path@, idx.comparison_mode());
            let out = idx.delta_outcome(delta).0;
            out.contains_key(k) && out[k] == (delta.upserts@[i], delta.generation)
        }),
{
    let mode = idx.comparison_mode();
    lemma_upserts_keep_entry(
        removals_applied(idx.delta_state(), idx.base_kinds(), removal_keys(delta.removals@, mode)),
        idx.base_kinds(),
        delta.upserts@,
        delta.generation,
        mode,
        i,
    );
}

proof fn lemma_removals_split(
    st: (Map<Seq<char>, (IndexedEntry, u64)>, Set<Seq<char>>, Set<Seq<char>>),
    base: Map<Seq<char>, IndexedEntryKind>,
    a: Seq<Seq<char>>,
    c: Seq<Seq<char>>,
)
    ensures
        removals_applied(st, base, a + c) == removals_applied(removals_applied(st, base, a), base, c),
    decreases c.len(),
{
    if c.len() == 0 {
        assert(a + c =~= a);
    } else {
        lemma_removals_split(st, base, a, c.drop_last());
        assert((a + c).drop_last() =~= a + c.drop_last());
    }
}

/// Law: a removal that finds a directory at its key hides, after the delta,
/// every key below it that no upsert of the delta writes. (Path keys are taken
/// as normalized.)
pub proof fn lemma_delta_hides_removed_subtrees(idx: LayeredSearchIndex, delta: CommittedIndexDelta, i: int, x: Seq<char>)
    requires
        0 <= i < delta.removals@.len(),
        forall|j: int| 0 <= j < delta.removals@.len() ==> normalized_key(
            #[trigger] removal_keys(delta.removals@, idx.comparison_mode())[j],
        ),
        forall|j: int| 0 <= j < delta.upserts@.len() ==> normalized_key(
            path_key_spec(#[trigger] delta.upserts@[j].path@, idx.comparison_mode()),
        ),
        ({
            let keys = removal_keys(delta.removals@, idx.comparison_mode());
            let st = removals_applied(idx.delta_state(), idx.base_kinds(), keys.take(i));
            is_directory_key(st.0, st.2, idx.base_kinds(), keys[i])
        }),
        descendant_key(removal_keys(delta.removals@, idx.comparison_mode())[i], x),
        forall|j: int| 0 <= j < delta.upserts@.len() ==> path_key_spec(#[trigger] delta.upserts@[j].path@, idx.comparison_mode())
            != x,
    ensures
        key_hidden(idx.delta_outcome(delta), x),
{
    let mode = idx.comparison_mode();
    let base = idx.base_kinds();
    let keys = removal_keys(delta.removals@, mode);
    let k = keys[i];
    let st = removals_applied(idx.delta_state(), base, keys.take(i));
    let after = after_removal(st, base, k);
    assert(keys.take(i + 1).drop_last() =~= keys.take(i));
    assert(removals_applied(idx.delta_state(), base, keys.take(i + 1)) == after);
    // The removal itself hides `x`.
    assert(key_matches(k, x));
    if dir_covers(st.2, k) {
        lemma_directory_tombstone_covers_descendants(st.2, k, x);
    } else {
        let nd = without_scope(st.2, k).insert(k);
        assert(nd.contains(k));
        lemma_directory_tombstone_covers_descendants(nd, k, x);
    }
    assert(key_hidden(after, x));
    // Later removals and the upserts keep it hidden.
    let rest = keys.skip(i + 1);
    assert(keys.take(i + 1) + rest =~= keys);
    lemma_removals_split(idx.delta_state(), base, keys.take(i + 1), rest);
    assert forall|j: int| 0 <= j < rest.len() implies normalized_key(#[trigger] rest[j]) by {
        assert(rest[j] == keys[i + 1 + j]);
    }
    lemma_removals_keep_hidden(after, base, rest, x);
    lemma_upserts_keep_hidden(removals_applied(idx.delta_state(), base, keys), base, delta.upserts@, delta.generation, mode, x);
}

} // verus!
