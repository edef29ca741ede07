//! Maps keyed by text, kept in increasing key order and searched by binary search.

use vstd::prelude::*;
use crate::compact_index::{lemma_prefix_block, lemma_prefix_not_below};
use crate::layered_index::{ascending, lemma_ascending_distinct};
use crate::text::{
    chars_eq, chars_of, has_prefix, lemma_seq_lt_irreflexive, lemma_seq_lt_total, lemma_seq_lt_transitive, lex_less,
    seq_lt, starts_with_chars,
};

verus! {

broadcast use vstd::string::group_string_axioms;

/// The keys of a list of pairs.
pub open spec fn pair_keys<V>(s: Seq<(String, V)>) -> Seq<Seq<char>> {
    Seq::new(s.len(), |i: int| s[i].0@)
}

/// The values of a list of pairs.
pub open spec fn pair_values<V>(s: Seq<(String, V)>) -> Seq<V> {
    Seq::new(s.len(), |i: int| s[i].1)
}

/// In an increasing list, the position of an element is the one it sits at.
pub proof fn lemma_index_of_ascending(s: Seq<Seq<char>>, i: int)
    requires
        ascending(s),
        0 <= i < s.len(),
    ensures
        s.index_of(s[i]) == i,
{
    lemma_ascending_distinct(s);
    assert(s.contains(s[i]));
    let j = s.index_of(s[i]);
    assert(0 <= j < s.len() && s[j] == s[i]);
}

/// A map from texts to values, its keys kept in increasing order.
pub struct StrMap<V> {
    items: Vec<(String, V)>,
}

impl<V> StrMap<V> {
    #[verifier::type_invariant]
    spec fn inv(&self) -> bool {
        ascending(pair_keys(self.items@))
    }

    /// The keys, increasing.
    pub closed spec fn keys(&self) -> Seq<Seq<char>> {
        pair_keys(self.items@)
    }

    /// The values, in key order.
    pub closed spec fn vals(&self) -> Seq<V> {
        pair_values(self.items@)
    }

    /// `k` is a key.
    pub open spec fn has(&self, k: Seq<char>) -> bool {
        self.keys().contains(k)
    }

    /// The value at key `k`.
    pub open spec fn at(&self, k: Seq<char>) -> V {
        self.vals()[self.keys().index_of(k)]
    }

    /// The map as a mathematical map.
    pub open spec fn as_map(&self) -> Map<Seq<char>, V> {
        Map::new(|k: Seq<char>| self.has(k), |k: Seq<char>| self.at(k))
    }

    pub fn new() -> (r: Self)
        ensures
            r.keys() == Seq::<Seq<char>>::empty(),
            r.vals() == Seq::<V>::empty(),
            r.as_map() == Map::<Seq<char>, V>::empty(),
    {
        let r = StrMap { items: Vec::new() };
        assert(r.keys() =~= Seq::<Seq<char>>::empty());
        assert(r.vals() =~= Seq::<V>::empty());
        assert(r.as_map() =~= Map::<Seq<char>, V>::empty());
        r
    }

    /// The map holding `items`, whose keys increase.
    pub fn from_sorted_pairs(items: Vec<(String, V)>) -> (r: Self)
        requires
            ascending(pair_keys(items@)),
        ensures
            r.keys() == pair_keys(items@),
            r.vals() == pair_values(items@),
    {
        StrMap { items }
    }

    /// The number of keys.
    pub fn len(&self) -> (r: usize)
        ensures
            r == self.keys().len(),
            ascending(self.keys()),
            self.vals().len() == self.keys().len(),
    {
        proof {
            use_type_invariant(self);
        }
        self.items.len()
    }

    /// The pairs, in increasing key order.
    pub fn pairs(&self) -> (r: &[(String, V)])
        ensures
            ascending(self.keys()),
            self.vals().len() == self.keys().len(),
            r@.len() == self.keys().len(),
            forall|i: int| 0 <= i < r@.len() ==> (#[trigger] r@[i]).0@ == self.keys()[i] && r@[i].1 == self.vals()[i],
    {
        proof {
            use_type_invariant(self);
        }
        self.items.as_slice()
    }

    /// The number of keys before the first that does not sort below `key`.
    fn lower_bound(&self, key: &[char]) -> (r: usize)
        ensures
            r <= self.keys().len(),
            forall|i: int| 0 <= i < r ==> seq_lt(#[trigger] self.keys()[i], key@),
            forall|i: int| r <= i < self.keys().len() ==> !seq_lt(#[trigger] self.keys()[i], key@),
    {
        proof {
            use_type_invariant(self);
        }
        let ghost s = self.keys();
        let mut lo: usize = 0;
        let mut hi: usize = self.items.len();
        while lo < hi
            invariant
                lo <= hi <= s.len(),
                s == self.keys(),
                ascending(s),
                forall|i: int| 0 <= i < lo ==> seq_lt(#[trigger] s[i], key@),
                forall|i: int| hi <= i < s.len() ==> !seq_lt(#[trigger] s[i], key@),
            decreases hi - lo,
        {
            let mid = lo + (hi - lo) / 2;
            let c = chars_of(self.items[mid].0.as_str());
            assert(c@ == s[mid as int]);
            if lex_less(c.as_slice(), key) {
                proof {
                    assert forall|i: int| 0 <= i <= mid implies seq_lt(#[trigger] s[i], key@) by {
                        if i < mid {
                            lemma_seq_lt_transitive(s[i], s[mid as int], key@);
                        }
                    }
                }
                lo = mid + 1;
            } else {
                proof {
                    assert forall|i: int| mid <= i < s.len() implies !seq_lt(#[trigger] s[i], key@) by {
                        if i > mid && seq_lt(s[i], key@) {
                            lemma_seq_lt_transitive(s[mid as int], s[i], key@);
                        }
                    }
                }
                hi = mid;
            }
        }
        lo
    }

    /// Whether the key at `pos`, if any, is `key`; then no other key is.
    fn found_at(&self, pos: usize, key: &[char]) -> (r: bool)
        requires
            pos <= self.keys().len(),
            forall|i: int| 0 <= i < pos ==> seq_lt(#[trigger] self.keys()[i], key@),
            forall|i: int| pos <= i < self.keys().len() ==> !seq_lt(#[trigger] self.keys()[i], key@),
        ensures
            r == (pos < self.keys().len() && self.keys()[pos as int] == key@),
            r == self.has(key@),
    {
        proof {
            use_type_invariant(self);
        }
        let ghost s = self.keys();
        let r = if pos < self.items.len() {
            let c = chars_of(self.items[pos].0.as_str());
            chars_eq(c.as_slice(), key)
        } else {
            false
        };
        proof {
            if s.contains(key@) {
                let k = choose|k: int| 0 <= k < s.len() && s[k] == key@;
                if k < pos {
                    lemma_seq_lt_irreflexive(key@);
                } else if k > pos {
                    assert(seq_lt(s[pos as int], s[k]));
                    lemma_seq_lt_total(s[pos as int], key@);
                    if s[pos as int] != key@ {
                        assert(seq_lt(key@, s[pos as int]));
                        lemma_seq_lt_transitive(key@, s[pos as int], key@);
                        lemma_seq_lt_irreflexive(key@);
                    }
                }
            }
            if r {
                assert(s[pos as int] == key@);
            }
        }
        r
    }

    /// The value at `key`, if it is a key.
    pub fn get(&self, key: &str) -> (r: Option<&V>)
        ensures
            match r {
                Some(v) => self.has(key@) && *v == self.at(key@),
                None => !self.has(key@),
            },
    {
        proof {
            use_type_invariant(self);
        }
        let k = chars_of(key);
        let pos = self.lower_bound(k.as_slice());
        if self.found_at(pos, k.as_slice()) {
            proof {
                lemma_index_of_ascending(self.keys(), pos as int);
            }
            Some(&self.items[pos].1)
        } else {
            None
        }
    }

    /// Whether `key` is a key.
    pub fn contains_key(&self, key: &str) -> (r: bool)
        ensures
            r == self.has(key@),
    {
        let k = chars_of(key);
        let pos = self.lower_bound(k.as_slice());
        self.found_at(pos, k.as_slice())
    }

    /// Whether some key starts with `prefix`.
    pub fn has_key_with_prefix(&self, prefix: &str) -> (r: bool)
        ensures
            r == exists|i: int| 0 <= i < self.keys().len() && has_prefix(#[trigger] self.keys()[i], prefix@),
    {
        proof {
            use_type_invariant(self);
        }
        let p = chars_of(prefix);
        let pos = self.lower_bound(p.as_slice());
        let ghost s = self.keys();
        let r = if pos < self.items.len() {
            let c = chars_of(self.items[pos].0.as_str());
            starts_with_chars(c.as_slice(), p.as_slice())
        } else {
            false
        };
        proof {
            if r {
                assert(s[pos as int] == self.items@[pos as int].0@);
                assert(has_prefix(s[pos as int], prefix@));
            }
            if !r {
                assert forall|i: int| 0 <= i < s.len() implies !has_prefix(#[trigger] s[i], prefix@) by {
                    if has_prefix(s[i], prefix@) {
                        lemma_prefix_not_below(s[i], prefix@);
                        if i > pos {
                            lemma_prefix_block(s[pos as int], s[i], prefix@);
                        }
                    }
                }
            }
        }
        r
    }

    /// The positions `lo..hi` of the keys that start with `prefix`: they sit
    /// together, and no key outside them starts with it.
    pub fn prefixed_range(&self, prefix: &str) -> (r: (usize, usize))
        ensures
            r.0 <= r.1 <= self.keys().len(),
            forall|i: int| r.0 <= i < r.1 ==> has_prefix(#[trigger] self.keys()[i], prefix@),
            forall|i: int| 0 <= i < self.keys().len() && !(r.0 <= i < r.1) ==> !has_prefix(#[trigger] self.keys()[i], prefix@),
            forall|i: int| 0 <= i < r.0 ==> seq_lt(#[trigger] self.keys()[i], prefix@),
    {
        proof {
            use_type_invariant(self);
        }
        let p = chars_of(prefix);
        let lo = self.lower_bound(p.as_slice());
        let ghost s = self.keys();
        let mut hi = lo;
        while hi < self.items.len()
            invariant_except_break
                lo <= hi <= s.len(),
                forall|i: int| lo <= i < hi ==> has_prefix(#[trigger] s[i], prefix@),
            invariant
                s == self.keys(),
                ascending(s),
                p@ == prefix@,
                lo <= hi <= s.len(),
                forall|i: int| lo <= i < hi ==> has_prefix(#[trigger] s[i], prefix@),
                forall|i: int| lo <= i < s.len() ==> !seq_lt(#[trigger] s[i], prefix@),
            ensures
                lo <= hi <= s.len(),
                forall|i: int| lo <= i < hi ==> has_prefix(#[trigger] s[i], prefix@),
                hi < s.len() ==> !has_prefix(s[hi as int], prefix@),
            decreases s.len() - hi,
        {
            let c = chars_of(self.items[hi].0.as_str());
            assert(c@ == s[hi as int]);
            if !starts_with_chars(c.as_slice(), p.as_slice()) {
                break;
            }
            hi = hi + 1;
        }
        proof {
            assert forall|i: int| 0 <= i < s.len() && !(lo <= i < hi) implies !has_prefix(#[trigger] s[i], prefix@) by {
                if has_prefix(s[i], prefix@) {
                    lemma_prefix_not_below(s[i], prefix@);
                    if i >= hi {
                        assert(hi < s.len());
                        if i > hi {
                            assert(seq_lt(s[hi as int], s[i]));
                            lemma_prefix_block(s[hi as int], s[i], prefix@);
                        }
                    }
                }
            }
        }
        (lo, hi)
    }

    /// Removes every key that starts with `prefix`, other than `except`.
    pub fn remove_prefixed_except(&mut self, prefix: &str, except: &str)
        requires
            has_prefix(except@, prefix@) ==> except@ == prefix@,
        ensures
            final(self).as_map() == old(self).as_map().remove_keys(
                Set::new(|k: Seq<char>| has_prefix(k, prefix@) && k != except@),
            ),
    {
        proof {
            use_type_invariant(&*self);
        }
        let (lo, hi) = self.prefixed_range(prefix);
        let ghost s = self.keys();
        let ghost vs = self.vals();
        let ghost old_map = self.as_map();
        let start = if lo < hi {
            let c = chars_of(self.items[lo].0.as_str());
            let e = chars_of(except);
            if chars_eq(c.as_slice(), e.as_slice()) {
                lo + 1
            } else {
                lo
            }
        } else {
            lo
        };
        proof {
            lemma_ascending_distinct(s);
            // `except` can only sit first in the block.
            assert forall|i: int| start <= i < hi implies #[trigger] s[i] != except@ by {
                if s[i] == except@ {
                    assert(has_prefix(except@, prefix@));
                    assert(except@ == prefix@);
                    if i > lo {
                        assert(seq_lt(s[lo as int], s[i]));
                        lemma_prefix_not_below(s[lo as int], prefix@);
                        lemma_seq_lt_total(s[lo as int], prefix@);
                        if s[lo as int] != prefix@ {
                            assert(seq_lt(prefix@, s[lo as int]));
                            lemma_seq_lt_transitive(prefix@, s[lo as int], prefix@);
                            lemma_seq_lt_irreflexive(prefix@);
                        }
                    }
                }
            }
        }
        let mut taken = StrMap::new();
        std::mem::swap(&mut taken, self);
        let StrMap { mut items } = taken;
        let ghost all = items@;
        let mut tail = items.split_off(hi);
        let _middle = items.split_off(start);
        items.append(&mut tail);
        let ghost new_items = all.subrange(0, start as int) + all.subrange(hi as int, all.len() as int);
        proof {
            assert(items@ =~= new_items);
            let t = pair_keys(new_items);
            assert(t =~= s.subrange(0, start as int) + s.subrange(hi as int, s.len() as int));
            assert forall|i: int, j: int| 0 <= i < j < t.len() implies seq_lt(#[trigger] t[i], #[trigger] t[j]) by {
                let ii = if i < start { i } else { i + hi - start };
                let jj = if j < start { j } else { j + hi - start };
                assert(t[i] == s[ii] && t[j] == s[jj]);
            }
        }
        *self = StrMap { items };
        proof {
            let m = self.as_map();
            let t = self.keys();
            let gone = Set::new(|k: Seq<char>| has_prefix(k, prefix@) && k != except@);
            let target = old_map.remove_keys(gone);
            assert(t =~= s.subrange(0, start as int) + s.subrange(hi as int, s.len() as int));
            assert(self.vals() =~= vs.subrange(0, start as int) + vs.subrange(hi as int, vs.len() as int));
            assert forall|x: Seq<char>| #[trigger] m.contains_key(x) == target.contains_key(x) by {
                if t.contains(x) {
                    let i = choose|i: int| 0 <= i < t.len() && t[i] == x;
                    let ii = if i < start { i } else { i + hi - start };
                    assert(s[ii] == x);
                    if start == lo + 1 && ii == lo {
                    }
                }
                if s.contains(x) && !gone.contains(x) {
                    let i = choose|i: int| 0 <= i < s.len() && s[i] == x;
                    if i < start {
                        assert(t[i] == x);
                    } else if i >= hi {
                        assert(t[i - hi + start] == x);
                    } else {
                        assert(has_prefix(s[i], prefix@));
                    }
                }
            }
            assert forall|x: Seq<char>| m.contains_key(x) implies #[trigger] m[x] == target[x] by {
                let i = choose|i: int| 0 <= i < t.len() && t[i] == x;
                lemma_index_of_ascending(t, i);
                let ii = if i < start { i } else { i + hi - start };
                assert(s[ii] == x);
                lemma_index_of_ascending(s, ii);
            }
            assert(m =~= target);
        }
    }

    /// Sets the value at `key`.
    pub fn insert(&mut self, key: String, value: V)
        ensures
            final(self).as_map() == old(self).as_map().insert(key@, value),
    {
        proof {
            use_type_invariant(&*self);
        }
        let k = chars_of(key.as_str());
        let pos = self.lower_bound(k.as_slice());
        let ghost s = self.keys();
        let ghost old_map = self.as_map();
        let ghost items = self.items@;
        let ghost kv = key@;
        if self.found_at(pos, k.as_slice()) {
            let mut taken = StrMap::new();
            std::mem::swap(&mut taken, self);
            let StrMap { mut items } = taken;
            let ghost new_items = items@.update(pos as int, (key, value));
            items.set(pos, (key, value));
            proof {
                assert(pair_keys(items@) =~= s);
            }
            *self = StrMap { items };
            proof {
                let m = self.as_map();
                assert forall|x: Seq<char>| #[trigger] m.contains_key(x) == old_map.insert(kv, value).contains_key(x) by {}
                assert forall|x: Seq<char>| m.contains_key(x) implies #[trigger] m[x] == old_map.insert(kv, value)[x] by {
                    let i = s.index_of(x);
                    assert(s.contains(x));
                    assert(0 <= i < s.len() && s[i] == x);
                    lemma_index_of_ascending(s, i);
                }
                assert(m =~= old_map.insert(kv, value));
            }
        } else {
            let ghost new_s = s.insert(pos as int, kv);
            proof {
                assert forall|i: int, j: int| 0 <= i < j < new_s.len() implies seq_lt(#[trigger] new_s[i], #[trigger] new_s[j]) by {
                    if pos < s.len() {
                        lemma_seq_lt_total(s[pos as int], kv);
                    }
                    if j < pos {
                    } else if j == pos {
                    } else if i < pos {
                        assert(seq_lt(s[i], kv));
                        assert(seq_lt(kv, s[pos as int]));
                        if j - 1 > pos {
                            lemma_seq_lt_transitive(kv, s[pos as int], s[j - 1]);
                        }
                        lemma_seq_lt_transitive(s[i], kv, s[j - 1]);
                    } else if i == pos {
                        assert(seq_lt(kv, s[pos as int]));
                        if j - 1 > pos {
                            lemma_seq_lt_transitive(kv, s[pos as int], s[j - 1]);
                        }
                    } else {
                        assert(seq_lt(s[i - 1], s[j - 1]));
                    }
                }
            }
            let mut taken = StrMap::new();
            std::mem::swap(&mut taken, self);
            let StrMap { mut items } = taken;
            items.insert(pos, (key, value));
            proof {
                assert(pair_keys(items@) =~= new_s);
            }
            *self = StrMap { items };
            proof {
                let m = self.as_map();
                let t = self.keys();
                assert(t == new_s);
                assert forall|x: Seq<char>| #[trigger] m.contains_key(x) == old_map.insert(kv, value).contains_key(x) by {
                    if t.contains(x) {
                        let i = choose|i: int| 0 <= i < t.len() && t[i] == x;
                        if i < pos {
                            assert(s[i] == x);
                        } else if i > pos {
                            assert(s[i - 1] == x);
                        }
                    }
                    if s.contains(x) {
                        let i = choose|i: int| 0 <= i < s.len() && s[i] == x;
                        if i < pos {
                            assert(t[i] == x);
                        } else {
                            assert(t[i + 1] == x);
                        }
                    }
                    if x == kv {
                        assert(t[pos as int] == x);
                    }
                }
                assert forall|x: Seq<char>| m.contains_key(x) implies #[trigger] m[x] == old_map.insert(kv, value)[x] by {
                    let i = choose|i: int| 0 <= i < t.len() && t[i] == x;
                    lemma_index_of_ascending(t, i);
                    if i < pos {
                        assert(s[i] == x);
                        lemma_index_of_ascending(s, i);
                    } else if i > pos {
                        assert(s[i - 1] == x);
                        lemma_index_of_ascending(s, i - 1);
                    }
                }
                assert(m =~= old_map.insert(kv, value));
            }
        }
    }

    /// Removes the pair at `pos`.
    fn remove_at(&mut self, pos: usize)
        requires
            pos < old(self).keys().len(),
        ensures
            final(self).keys() == old(self).keys().remove(pos as int),
            final(self).vals() == old(self).vals().remove(pos as int),
    {
        proof {
            use_type_invariant(&*self);
        }
        let ghost s = self.keys();
        let ghost vs = self.vals();
        let ghost new_s = s.remove(pos as int);
        proof {
            assert forall|i: int, j: int| 0 <= i < j < new_s.len() implies seq_lt(#[trigger] new_s[i], #[trigger] new_s[j]) by {
                if j < pos {
                } else if i < pos {
                    assert(seq_lt(s[i], s[j + 1]));
                } else {
                    assert(seq_lt(s[i + 1], s[j + 1]));
                }
            }
        }
        let mut taken = StrMap::new();
        std::mem::swap(&mut taken, self);
        let StrMap { mut items } = taken;
        items.remove(pos);
        proof {
            assert(pair_keys(items@) =~= new_s);
            assert(pair_values(items@) =~= vs.remove(pos as int));
        }
        *self = StrMap { items };
    }

    /// Removes `key`.
    pub fn remove(&mut self, key: &str)
        ensures
            final(self).as_map() == old(self).as_map().remove(key@),
    {
        proof {
            use_type_invariant(&*self);
        }
        let k = chars_of(key);
        let pos = self.lower_bound(k.as_slice());
        let ghost old_map = self.as_map();
        if !self.found_at(pos, k.as_slice()) {
            proof {
                assert(self.as_map() =~= old_map.remove(key@));
            }
            return;
        }
        let ghost s = self.keys();
        let ghost vs = self.vals();
        self.remove_at(pos);
        proof {
            use_type_invariant(&*self);
            lemma_ascending_distinct(s);
            let m = self.as_map();
            let t = self.keys();
            assert forall|x: Seq<char>| #[trigger] m.contains_key(x) == old_map.remove(key@).contains_key(x) by {
                if t.contains(x) {
                    let i = choose|i: int| 0 <= i < t.len() && t[i] == x;
                    if i < pos {
                        assert(s[i] == x);
                        assert(s[i] != s[pos as int]);
                    } else {
                        assert(s[i + 1] == x);
                        assert(s[i + 1] != s[pos as int]);
                    }
                }
                if s.contains(x) && x != key@ {
                    let i = choose|i: int| 0 <= i < s.len() && s[i] == x;
                    if i < pos {
                        assert(t[i] == x);
                    } else {
                        assert(i != pos);
                        assert(t[i - 1] == x);
                    }
                }
            }
            assert forall|x: Seq<char>| m.contains_key(x) implies #[trigger] m[x] == old_map.remove(key@)[x] by {
                let i = choose|i: int| 0 <= i < t.len() && t[i] == x;
                lemma_index_of_ascending(t, i);
                if i < pos {
                    assert(s[i] == x);
                    lemma_index_of_ascending(s, i);
                } else {
                    assert(s[i + 1] == x);
                    lemma_index_of_ascending(s, i + 1);
                }
            }
            assert(m =~= old_map.remove(key@));
        }
    }
}

} // verus!
