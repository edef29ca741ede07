//! Merging the results of targeted scans: upserts and removals by path key,
//! where a removal covers everything below it and a later upsert revives its
//! ancestors.

use vstd::prelude::*;
use crate::index_entry::{
    normalize_path_text_key_for_mode, path_key_spec, path_parent, std_path_parent, IndexFailure, IndexedEntry,
    PathComparisonMode,
};
use crate::paths::strings_view;
use crate::layered_index::{ascending, lemma_ascending_distinct};
use crate::str_map::lemma_index_of_ascending;
use crate::text::seq_lt;
use crate::str_map::StrMap;

verus! {

/// A directory as the manifest records it.
#[derive(Debug, Clone, PartialEq, Eq)]
pub struct DirectoryFingerprint {
    pub path: String,
    pub parent: Option<String>,
    pub root: String,
    pub modified_ms: Option<i64>,
}

/// What a targeted scan found: entries to add or replace, paths to remove,
/// the same for the directory manifest, and the failures met.
#[derive(Debug)]
pub struct TargetedScanResult {
    pub upserts: Vec<IndexedEntry>,
    pub removals: Vec<String>,
    pub manifest_upserts: Vec<DirectoryFingerprint>,
    pub manifest_removals: Vec<String>,
    pub failures: Vec<IndexFailure>,
}

impl Default for TargetedScanResult {
    fn default() -> (r: Self)
        ensures
            r.upserts@.len() == 0,
            r.removals@.len() == 0,
            r.manifest_upserts@.len() == 0,
            r.manifest_removals@.len() == 0,
            r.failures@.len() == 0,
    {
        TargetedScanResult {
            upserts: Vec::new(),
            removals: Vec::new(),
            manifest_upserts: Vec::new(),
            manifest_removals: Vec::new(),
            failures: Vec::new(),
        }
    }
}

/// A record with a path.
pub trait PathRow: Sized {
    spec fn row_path(&self) -> Seq<char>;

    fn path_str(&self) -> (r: &str)
        ensures
            r@ == self.row_path(),
    ;

    fn copy_row(&self) -> (r: Self)
        ensures
            r == *self,
    ;
}

impl PathRow for IndexedEntry {
    open spec fn row_path(&self) -> Seq<char> {
        self.path@
    }

    fn path_str(&self) -> (r: &str) {
        self.path.as_str()
    }

    fn copy_row(&self) -> (r: Self) {
        self.duplicate()
    }
}

impl PathRow for DirectoryFingerprint {
    open spec fn row_path(&self) -> Seq<char> {
        self.path@
    }

    fn path_str(&self) -> (r: &str) {
        self.path.as_str()
    }

    fn copy_row(&self) -> (r: Self) {
        DirectoryFingerprint {
            path: self.path.clone(),
            parent: match &self.parent {
                Some(p) => Some(p.clone()),
                None => None,
            },
            root: self.root.clone(),
            modified_ms: self.modified_ms,
        }
    }
}

/// The path and its ancestors, nearest first (`Path::ancestors`).
pub open spec fn ancestors(p: Seq<char>) -> Seq<Seq<char>>
    decreases p.len(),
{
    match std_path_parent(p) {
        Some(q) => if q.len() < p.len() {
            seq![p] + ancestors(q)
        } else {
            seq![p]
        },
        None => seq![p],
    }
}

/// Some ancestor of `p`, from the `from`-th on, has its key among `keys`.
pub open spec fn ancestor_hit(p: Seq<char>, keys: Set<Seq<char>>, mode: PathComparisonMode, from: int) -> bool {
    exists|i: int| from <= i < ancestors(p).len() && keys.contains(path_key_spec(#[trigger] ancestors(p)[i], mode))
}

/// The keys of `p` and its ancestors.
pub open spec fn ancestor_keys(p: Seq<char>, mode: PathComparisonMode) -> Set<Seq<char>> {
    Set::new(|k: Seq<char>| exists|i: int| 0 <= i < ancestors(p).len() && path_key_spec(#[trigger] ancestors(p)[i], mode) == k)
}

/// The rows by key, a later row replacing an earlier one.
pub open spec fn keyed_rows<T: PathRow>(rows: Seq<T>, mode: PathComparisonMode) -> Map<Seq<char>, T>
    decreases rows.len(),
{
    if rows.len() == 0 {
        Map::empty()
    } else {
        keyed_rows(rows.drop_last(), mode).insert(path_key_spec(rows.last().row_path(), mode), rows.last())
    }
}

/// The paths by key, a later spelling replacing an earlier one.
pub open spec fn keyed_paths(paths: Seq<Seq<char>>, mode: PathComparisonMode) -> Map<Seq<char>, Seq<char>>
    decreases paths.len(),
{
    if paths.len() == 0 {
        Map::empty()
    } else {
        keyed_paths(paths.drop_last(), mode).insert(path_key_spec(paths.last(), mode), paths.last())
    }
}

/// The removals that no other removal covers from above.
pub open spec fn collapsed(r: Map<Seq<char>, Seq<char>>, mode: PathComparisonMode) -> Map<Seq<char>, Seq<char>> {
    Map::new(|k: Seq<char>| r.contains_key(k) && !ancestor_hit(r[k], r.dom(), mode, 1), |k: Seq<char>| r[k])
}

/// The rows that no removal covers, the row's own path included.
pub open spec fn uncovered<T: PathRow>(u: Map<Seq<char>, T>, r: Set<Seq<char>>, mode: PathComparisonMode) -> Map<
    Seq<char>,
    T,
> {
    Map::new(|k: Seq<char>| u.contains_key(k) && !ancestor_hit(u[k].row_path(), r, mode, 0), |k: Seq<char>| u[k])
}

/// The rows and removals after each new row in turn: the row replaces the one
/// at its key, and removals of it or of its ancestors are dropped.
pub open spec fn with_new_rows<T: PathRow>(
    u: Map<Seq<char>, T>,
    r: Map<Seq<char>, Seq<char>>,
    rows: Seq<T>,
    mode: PathComparisonMode,
) -> (Map<Seq<char>, T>, Map<Seq<char>, Seq<char>>)
    decreases rows.len(),
{
    if rows.len() == 0 {
        (u, r)
    } else {
        let (u1, r1) = with_new_rows(u, r, rows.drop_last(), mode);
        let s = rows.last();
        (
            u1.insert(path_key_spec(s.row_path(), mode), s),
            Map::new(|k: Seq<char>| r1.contains_key(k) && !ancestor_keys(s.row_path(), mode).contains(k), |k: Seq<char>| r1[k]),
        )
    }
}

/// The merged rows and removals.
pub open spec fn merged_rows<T: PathRow>(
    rows: Seq<T>,
    removals: Seq<Seq<char>>,
    new_rows: Seq<T>,
    new_removals: Seq<Seq<char>>,
    mode: PathComparisonMode,
) -> (Map<Seq<char>, T>, Map<Seq<char>, Seq<char>>) {
    let r1 = collapsed(keyed_paths(removals + new_removals, mode), mode);
    with_new_rows(uncovered(keyed_rows(rows, mode), r1.dom(), mode), r1, new_rows, mode)
}

/// `out` lists the map's rows in increasing key order.
pub open spec fn lists_rows<T: PathRow>(out: Seq<T>, m: Map<Seq<char>, T>, mode: PathComparisonMode) -> bool {
    &&& forall|i: int, j: int| 0 <= i < j < out.len() ==> seq_lt(
        path_key_spec((#[trigger] out[i]).row_path(), mode),
        path_key_spec((#[trigger] out[j]).row_path(), mode),
    )
    &&& forall|i: int| 0 <= i < out.len() ==> m.contains_key(path_key_spec((#[trigger] out[i]).row_path(), mode)) && m[path_key_spec(out[i].row_path(), mode)] == out[i]
    &&& forall|k: Seq<char>| #[trigger] m.contains_key(k) ==> exists|i: int| 0 <= i < out.len() && path_key_spec(out[i].row_path(), mode) == k
}

/// `out` lists the map's paths in increasing key order.
pub open spec fn lists_paths(out: Seq<Seq<char>>, m: Map<Seq<char>, Seq<char>>, mode: PathComparisonMode) -> bool {
    &&& forall|i: int, j: int| 0 <= i < j < out.len() ==> seq_lt(
        path_key_spec(#[trigger] out[i], mode),
        path_key_spec(#[trigger] out[j], mode),
    )
    &&& forall|i: int| 0 <= i < out.len() ==> m.contains_key(path_key_spec(#[trigger] out[i], mode)) && m[path_key_spec(out[i], mode)] == out[i]
    &&& forall|k: Seq<char>| #[trigger] m.contains_key(k) ==> exists|i: int| 0 <= i < out.len() && path_key_spec(out[i], mode) == k
}

/// Every key of the map is the key of the row it holds.
pub open spec fn rows_at_own_keys<T: PathRow>(m: Map<Seq<char>, T>, mode: PathComparisonMode) -> bool {
    forall|k: Seq<char>| #[trigger] m.contains_key(k) ==> path_key_spec(m[k].row_path(), mode) == k
}

/// Every key of the map is the key of the path it holds.
pub open spec fn paths_at_own_keys(m: Map<Seq<char>, Seq<char>>, mode: PathComparisonMode) -> bool {
    forall|k: Seq<char>| #[trigger] m.contains_key(k) ==> path_key_spec(m[k], mode) == k
}

/// The paths of `p`'s ancestors, `p` first.
fn ancestor_paths(p: &str) -> (r: Vec<String>)
    ensures
        strings_view(r@) == ancestors(p@),
{
    let mut out: Vec<String> = Vec::new();
    let mut cur = p.to_string();
    proof {
        assert(strings_view(out@) + ancestors(cur@) =~= ancestors(p@));
    }
    loop
        invariant_except_break
            strings_view(out@) + ancestors(cur@) == ancestors(p@),
        ensures
            strings_view(out@) == ancestors(p@),
        decreases cur@.len(),
    {
        let next = path_parent(cur.as_str());
        let ghost c = cur@;
        let ghost before = strings_view(out@);
        out.push(cur);
        proof {
            assert(strings_view(out@) =~= before.push(c));
        }
        match next {
            Some(q) => {
                proof {
                    assert(ancestors(c) == seq![c] + ancestors(q@));
                    assert(before.push(c) + ancestors(q@) =~= before + (seq![c] + ancestors(q@)));
                }
                cur = q;
            },
            None => {
                proof {
                    assert(ancestors(c) == seq![c]);
                    assert(before.push(c) =~= before + seq![c]);
                }
                break;
            },
        }
    }
    out
}

/// Whether an ancestor of `p`, from the `from`-th on, has a key of `keys`;
/// each ancestor looked at is one step of work.
fn ancestor_in(p: &str, keys: &StrMap<String>, mode: PathComparisonMode, from: usize, work: &mut usize) -> (r: bool)
    ensures
        r == ancestor_hit(p@, keys.as_map().dom(), mode, from as int),
        *old(work) <= *final(work),
        *final(work) <= *old(work) + ancestors(p@).len(),
{
    let ancs = ancestor_paths(p);
    let ghost a = ancestors(p@);
    let mut i = from;
    let ghost w0 = *work;
    if i >= ancs.len() {
        return false;
    }
    while i < ancs.len()
        invariant
            from <= i <= ancs@.len(),
            strings_view(ancs@) == a,
            a == ancestors(p@),
            w0 <= *work <= w0 + (i - from),
            w0 == *old(work),
            ancs@.len() == a.len(),
            forall|t: int| from <= t < i ==> !keys.as_map().dom().contains(path_key_spec(#[trigger] a[t], mode)),
        decreases ancs@.len() - i,
    {
        *work = work.saturating_add(1);
        let key = normalize_path_text_key_for_mode(ancs[i].as_str(), mode);
        proof {
            assert(a[i as int] == ancs@[i as int]@);
        }
        if keys.contains_key(key.as_str()) {
            proof {
                assert(keys.as_map().dom().contains(path_key_spec(a[i as int], mode)));
            }
            return true;
        }
        i = i + 1;
    }
    false
}

/// The longest ancestor chain among the paths.
pub open spec fn max_chain(ps: Seq<Seq<char>>) -> nat
    decreases ps.len(),
{
    if ps.len() == 0 {
        0
    } else {
        let m = max_chain(ps.drop_last());
        if ancestors(ps.last()).len() > m {
            ancestors(ps.last()).len()
        } else {
            m
        }
    }
}

proof fn lemma_max_chain(ps: Seq<Seq<char>>, p: Seq<char>)
    requires
        ps.contains(p),
    ensures
        ancestors(p).len() <= max_chain(ps),
    decreases ps.len(),
{
    if ps.last() != p {
        let k = choose|k: int| 0 <= k < ps.len() && ps[k] == p;
        assert(ps.drop_last()[k] == p);
        lemma_max_chain(ps.drop_last(), p);
    }
}

/// The paths of the rows.
pub open spec fn row_paths<T: PathRow>(rows: Seq<T>) -> Seq<Seq<char>> {
    rows.map_values(|r: T| r.row_path())
}

/// The paths by key, later spellings replacing earlier ones.
fn key_paths(paths: &Vec<String>, mode: PathComparisonMode) -> (r: StrMap<String>)
    ensures
        r.as_map().map_values(|s: String| s@) == keyed_paths(strings_view(paths@), mode),
        forall|k: Seq<char>| #[trigger] r.as_map().contains_key(k) ==> strings_view(paths@).contains(r.as_map()[k]@),
        forall|k: Seq<char>| #[trigger] r.as_map().contains_key(k) ==> path_key_spec(r.as_map()[k]@, mode) == k,
        r.as_map().dom().len() <= paths@.len(),
        r.as_map().dom().finite(),
{
    let mut m: StrMap<String> = StrMap::new();
    let mut i: usize = 0;
    while i < paths.len()
        invariant
            i <= paths@.len(),
            m.as_map().map_values(|s: String| s@) == keyed_paths(strings_view(paths@.take(i as int)), mode),
            forall|k: Seq<char>| #[trigger] m.as_map().contains_key(k) ==> strings_view(paths@).contains(m.as_map()[k]@),
            forall|k: Seq<char>| #[trigger] m.as_map().contains_key(k) ==> path_key_spec(m.as_map()[k]@, mode) == k,
            m.as_map().dom().finite(),
            m.as_map().dom().len() <= i,
        decreases paths@.len() - i,
    {
        let key = normalize_path_text_key_for_mode(paths[i].as_str(), mode);
        let ghost before = m.as_map();
        m.insert(key, paths[i].clone());
        proof {
            let sv = strings_view(paths@.take(i + 1));
            assert(sv.drop_last() =~= strings_view(paths@.take(i as int)));
            assert(sv.last() == paths@[i as int]@);
            assert(m.as_map().map_values(|s: String| s@) =~= before.map_values(|s: String| s@).insert(
                path_key_spec(paths@[i as int]@, mode),
                paths@[i as int]@,
            ));
            assert forall|k: Seq<char>| #[trigger] m.as_map().contains_key(k) implies strings_view(paths@).contains(m.as_map()[k]@) by {
                if k == path_key_spec(paths@[i as int]@, mode) {
                    assert(strings_view(paths@)[i as int] == paths@[i as int]@);
                } else {
                    assert(before.contains_key(k));
                }
            }
            if before.contains_key(key@) {
                assert(m.as_map().dom() =~= before.dom());
            } else {
                assert(m.as_map().dom() =~= before.dom().insert(key@));
            }
        }
        i = i + 1;
    }
    proof {
        assert(paths@.take(paths@.len() as int) =~= paths@);
    }
    m
}

/// The rows by key, later rows replacing earlier ones.
fn key_rows<T: PathRow>(rows: &Vec<T>, mode: PathComparisonMode) -> (r: StrMap<T>)
    ensures
        r.as_map() == keyed_rows(rows@, mode),
        forall|k: Seq<char>| #[trigger] r.as_map().contains_key(k) ==> row_paths(rows@).contains(r.as_map()[k].row_path()),
        forall|k: Seq<char>| #[trigger] r.as_map().contains_key(k) ==> path_key_spec(r.as_map()[k].row_path(), mode) == k,
        r.as_map().dom().len() <= rows@.len(),
        r.as_map().dom().finite(),
{
    let mut m: StrMap<T> = StrMap::new();
    let mut i: usize = 0;
    while i < rows.len()
        invariant
            i <= rows@.len(),
            m.as_map() == keyed_rows(rows@.take(i as int), mode),
            forall|k: Seq<char>| #[trigger] m.as_map().contains_key(k) ==> row_paths(rows@).contains(m.as_map()[k].row_path()),
            forall|k: Seq<char>| #[trigger] m.as_map().contains_key(k) ==> path_key_spec(m.as_map()[k].row_path(), mode) == k,
            m.as_map().dom().finite(),
            m.as_map().dom().len() <= i,
        decreases rows@.len() - i,
    {
        let key = normalize_path_text_key_for_mode(rows[i].path_str(), mode);
        let ghost before = m.as_map();
        m.insert(key, rows[i].copy_row());
        proof {
            assert(rows@.take(i + 1).drop_last() =~= rows@.take(i as int));
            assert(rows@.take(i + 1).last() == rows@[i as int]);
            assert forall|k: Seq<char>| #[trigger] m.as_map().contains_key(k) implies row_paths(rows@).contains(m.as_map()[k].row_path()) by {
                if k == key@ {
                    assert(row_paths(rows@)[i as int] == rows@[i as int].row_path());
                } else {
                    assert(before.contains_key(k));
                }
            }
            if before.contains_key(key@) {
                assert(m.as_map().dom() =~= before.dom());
            } else {
                assert(m.as_map().dom() =~= before.dom().insert(key@));
            }
        }
        i = i + 1;
    }
    proof {
        assert(rows@.take(rows@.len() as int) =~= rows@);
    }
    m
}

/// The view of a map of path spellings.
pub open spec fn path_map_view(m: Map<Seq<char>, String>) -> Map<Seq<char>, Seq<char>> {
    m.map_values(|s: String| s@)
}

/// The removals that no other removal covers from above.
fn collapse_removals(
    r0: &StrMap<String>,
    mode: PathComparisonMode,
    work: &mut usize,
    Ghost(chain): Ghost<nat>,
) -> (r: StrMap<String>)
    requires
        forall|k: Seq<char>| #[trigger] r0.as_map().contains_key(k) ==> ancestors(r0.as_map()[k]@).len() <= chain,
    ensures
        path_map_view(r.as_map()) == collapsed(path_map_view(r0.as_map()), mode),
        forall|k: Seq<char>| #[trigger] r.as_map().contains_key(k) ==> r0.as_map().contains_key(k) && r.as_map()[k] == r0.as_map()[k],
        *old(work) <= *final(work),
        *final(work) <= *old(work) + r0.as_map().dom().len() * chain,
{
    let pairs = r0.pairs();
    let ghost keys = r0.keys();
    let ghost w0 = *work;
    let ghost full = path_map_view(r0.as_map());
    let mut out: StrMap<String> = StrMap::new();
    let mut i: usize = 0;
    proof {
        assert(ascending(keys));
        lemma_ascending_distinct(keys);
        assert(r0.as_map().dom() =~= keys.to_set());
        keys.unique_seq_to_set();
    }
    while i < pairs.len()
        invariant
            i <= pairs@.len(),
            pairs@.len() == keys.len(),
            keys == r0.keys(),
            ascending(keys),
            r0.vals().len() == keys.len(),
            forall|t: int| 0 <= t < pairs@.len() ==> (#[trigger] pairs@[t]).0@ == keys[t] && pairs@[t].1 == r0.vals()[t],
            full == path_map_view(r0.as_map()),
            forall|k: Seq<char>| #[trigger] r0.as_map().contains_key(k) ==> ancestors(r0.as_map()[k]@).len() <= chain,
            forall|k: Seq<char>| #[trigger] out.as_map().contains_key(k) <==> (keys.take(i as int).contains(k)
                && collapsed(full, mode).contains_key(k)),
            forall|k: Seq<char>| #[trigger] out.as_map().contains_key(k) ==> out.as_map()[k] == r0.as_map()[k],
            w0 == *old(work),
            w0 <= *work <= w0 + i * chain,
            keys.len() == r0.as_map().dom().len(),
        decreases pairs@.len() - i,
    {
        let ghost before_work = *work;
        let ghost ki = keys[i as int];
        proof {
            lemma_index_of_ascending(keys, i as int);
            assert(r0.as_map().contains_key(ki));
            assert(r0.as_map()[ki] == pairs@[i as int].1);
        }
        let covered = ancestor_in(pairs[i].1.as_str(), r0, mode, 1, work);
        proof {
            assert((i + 1) * chain == i * chain + chain) by (nonlinear_arith);
            assert(full.dom() =~= r0.as_map().dom());
            assert(full[ki] == pairs@[i as int].1@);
        }
        let ghost before = out.as_map();
        if !covered {
            out.insert(pairs[i].0.clone(), pairs[i].1.clone());
        }
        proof {
            assert(keys.take(i + 1) =~= keys.take(i as int).push(ki));
            assert forall|k: Seq<char>| #[trigger] out.as_map().contains_key(k) <==> (keys.take(i + 1).contains(k)
                && collapsed(full, mode).contains_key(k)) by {
                if k == ki {
                    assert(keys.take(i + 1)[i as int] == ki);
                } else {
                    if keys.take(i + 1).contains(k) {
                        let t = choose|t: int| 0 <= t < i + 1 && #[trigger] keys.take(i + 1)[t] == k;
                        assert(keys.take(i as int)[t] == k);
                    }
                    if keys.take(i as int).contains(k) {
                        let t = choose|t: int| 0 <= t < i && #[trigger] keys.take(i as int)[t] == k;
                        assert(keys.take(i + 1)[t] == k);
                    }
                }
            }
        }
        i = i + 1;
    }
    proof {
        assert(keys.take(keys.len() as int) =~= keys);
        assert(path_map_view(out.as_map()) =~= collapsed(full, mode)) by {
            assert forall|k: Seq<char>| #[trigger] collapsed(full, mode).contains_key(k) implies keys.contains(k) by {
                assert(r0.as_map().contains_key(k));
            }
        }
    }
    out
}

/// The rows that no removal covers, the row's own path included.
fn uncover_rows<T: PathRow>(
    u0: &StrMap<T>,
    r1: &StrMap<String>,
    mode: PathComparisonMode,
    work: &mut usize,
    Ghost(chain): Ghost<nat>,
) -> (r: StrMap<T>)
    requires
        forall|k: Seq<char>| #[trigger] u0.as_map().contains_key(k) ==> ancestors(u0.as_map()[k].row_path()).len() <= chain,
    ensures
        r.as_map() == uncovered(u0.as_map(), r1.as_map().dom(), mode),
        *old(work) <= *final(work),
        *final(work) <= *old(work) + u0.as_map().dom().len() * chain,
{
    let pairs = u0.pairs();
    let ghost keys = u0.keys();
    let ghost w0 = *work;
    let ghost target = uncovered(u0.as_map(), r1.as_map().dom(), mode);
    let mut out: StrMap<T> = StrMap::new();
    let mut i: usize = 0;
    proof {
        lemma_ascending_distinct(keys);
        assert(u0.as_map().dom() =~= keys.to_set());
        keys.unique_seq_to_set();
    }
    while i < pairs.len()
        invariant
            i <= pairs@.len(),
            pairs@.len() == keys.len(),
            keys == u0.keys(),
            ascending(keys),
            u0.vals().len() == keys.len(),
            forall|t: int| 0 <= t < pairs@.len() ==> (#[trigger] pairs@[t]).0@ == keys[t] && pairs@[t].1 == u0.vals()[t],
            target == uncovered(u0.as_map(), r1.as_map().dom(), mode),
            forall|k: Seq<char>| #[trigger] u0.as_map().contains_key(k) ==> ancestors(u0.as_map()[k].row_path()).len() <= chain,
            forall|k: Seq<char>| #[trigger] out.as_map().contains_key(k) <==> (keys.take(i as int).contains(k)
                && target.contains_key(k)),
            forall|k: Seq<char>| #[trigger] out.as_map().contains_key(k) ==> out.as_map()[k] == u0.as_map()[k],
            w0 == *old(work),
            w0 <= *work <= w0 + i * chain,
            keys.len() == u0.as_map().dom().len(),
        decreases pairs@.len() - i,
    {
        let ghost ki = keys[i as int];
        proof {
            lemma_index_of_ascending(keys, i as int);
            assert(u0.as_map().contains_key(ki));
            assert(u0.as_map()[ki] == pairs@[i as int].1);
        }
        let covered = ancestor_in(pairs[i].1.path_str(), r1, mode, 0, work);
        proof {
            assert((i + 1) * chain == i * chain + chain) by (nonlinear_arith);
        }
        if !covered {
            out.insert(pairs[i].0.clone(), pairs[i].1.copy_row());
        }
        proof {
            assert(keys.take(i + 1) =~= keys.take(i as int).push(ki));
            assert forall|k: Seq<char>| #[trigger] out.as_map().contains_key(k) <==> (keys.take(i + 1).contains(k)
                && target.contains_key(k)) by {
                if k == ki {
                    assert(keys.take(i + 1)[i as int] == ki);
                } else {
                    if keys.take(i + 1).contains(k) {
                        let t = choose|t: int| 0 <= t < i + 1 && #[trigger] keys.take(i + 1)[t] == k;
                        assert(keys.take(i as int)[t] == k);
                    }
                    if keys.take(i as int).contains(k) {
                        let t = choose|t: int| 0 <= t < i && #[trigger] keys.take(i as int)[t] == k;
                        assert(keys.take(i + 1)[t] == k);
                    }
                }
            }
        }
        i = i + 1;
    }
    proof {
        assert(keys.take(keys.len() as int) =~= keys);
        assert(out.as_map() =~= target) by {
            assert forall|k: Seq<char>| #[trigger] target.contains_key(k) implies keys.contains(k) by {
                assert(u0.as_map().contains_key(k));
            }
        }
    }
    out
}

/// Adds the new rows in turn: each drops the removals of its path and its
/// ancestors and replaces the row at its key.
fn apply_new_rows<T: PathRow>(
    u: &mut StrMap<T>,
    r: &mut StrMap<String>,
    rows: &Vec<T>,
    mode: PathComparisonMode,
    work: &mut usize,
    Ghost(chain): Ghost<nat>,
)
    requires
        forall|i: int| 0 <= i < rows@.len() ==> ancestors((#[trigger] rows@[i]).row_path()).len() <= chain,
    ensures
        (final(u).as_map(), path_map_view(final(r).as_map())) == with_new_rows(
            old(u).as_map(),
            path_map_view(old(r).as_map()),
            rows@,
            mode,
        ),
        *old(work) <= *final(work),
        *final(work) <= *old(work) + rows@.len() * chain,
{
    let ghost u0 = u.as_map();
    let ghost r0 = path_map_view(r.as_map());
    let ghost w0 = *work;
    let mut i: usize = 0;
    proof {
        assert(rows@.take(0) =~= Seq::<T>::empty());
    }
    while i < rows.len()
        invariant
            i <= rows@.len(),
            (u.as_map(), path_map_view(r.as_map())) == with_new_rows(u0, r0, rows@.take(i as int), mode),
            forall|t: int| 0 <= t < rows@.len() ==> ancestors((#[trigger] rows@[t]).row_path()).len() <= chain,
            w0 == *old(work),
            w0 <= *work <= w0 + i * chain,
        decreases rows@.len() - i,
    {
        let row = &rows[i];
        let ancs = ancestor_paths(row.path_str());
        let ghost a = ancestors(row.row_path());
        let ghost ri = path_map_view(r.as_map());
        let ghost wi = *work;
        let mut j: usize = 0;
        while j < ancs.len()
            invariant
                j <= ancs@.len(),
                strings_view(ancs@) == a,
                ancs@.len() == a.len(),
                forall|k: Seq<char>| #[trigger] path_map_view(r.as_map()).contains_key(k) <==> (ri.contains_key(k)
                    && !(exists|t: int| 0 <= t < j && path_key_spec(#[trigger] a[t], mode) == k)),
                forall|k: Seq<char>| #[trigger] path_map_view(r.as_map()).contains_key(k) ==> path_map_view(r.as_map())[k] == ri[k],
                wi <= *work <= wi + j,
            decreases ancs@.len() - j,
        {
            *work = work.saturating_add(1);
            let key = normalize_path_text_key_for_mode(ancs[j].as_str(), mode);
            let ghost before = path_map_view(r.as_map());
            r.remove(key.as_str());
            proof {
                assert(a[j as int] == ancs@[j as int]@);
                assert(key@ == path_key_spec(a[j as int], mode));
                assert(path_map_view(r.as_map()) =~= before.remove(key@));
                assert forall|k: Seq<char>| #[trigger] path_map_view(r.as_map()).contains_key(k) <==> (ri.contains_key(k)
                    && !(exists|t: int| 0 <= t < j + 1 && path_key_spec(#[trigger] a[t], mode) == k)) by {
                    if k != key@ {
                        if exists|t: int| 0 <= t < j + 1 && path_key_spec(#[trigger] a[t], mode) == k {
                            let t = choose|t: int| 0 <= t < j + 1 && path_key_spec(#[trigger] a[t], mode) == k;
                            assert(t < j);
                        }
                    }
                }
            }
            j = j + 1;
        }
        proof {
            assert(path_map_view(r.as_map()) =~= Map::new(
                |k: Seq<char>| ri.contains_key(k) && !ancestor_keys(row.row_path(), mode).contains(k),
                |k: Seq<char>| ri[k],
            )) by {
                assert forall|k: Seq<char>| ancestor_keys(row.row_path(), mode).contains(k) <==> (exists|t: int| 0 <= t < ancs@.len() && path_key_spec(#[trigger] a[t], mode) == k) by {}
            }
        }
        let key = normalize_path_text_key_for_mode(row.path_str(), mode);
        u.insert(key, row.copy_row());
        proof {
            assert(rows@.take(i + 1).drop_last() =~= rows@.take(i as int));
            assert(rows@.take(i + 1).last() == rows@[i as int]);
            assert(*work <= wi + chain);
            assert((i + 1) * chain == i * chain + chain) by (nonlinear_arith);
        }
        i = i + 1;
    }
    proof {
        assert(rows@.take(rows@.len() as int) =~= rows@);
    }
}

proof fn lemma_new_rows_keep_keys<T: PathRow>(
    u: Map<Seq<char>, T>,
    r: Map<Seq<char>, Seq<char>>,
    rows: Seq<T>,
    mode: PathComparisonMode,
)
    requires
        rows_at_own_keys(u, mode),
        paths_at_own_keys(r, mode),
    ensures
        rows_at_own_keys(with_new_rows(u, r, rows, mode).0, mode),
        paths_at_own_keys(with_new_rows(u, r, rows, mode).1, mode),
    decreases rows.len(),
{
    if rows.len() > 0 {
        lemma_new_rows_keep_keys(u, r, rows.drop_last(), mode);
    }
}

/// The map's rows in key order.
fn listed_rows<T: PathRow>(m: &StrMap<T>, mode: PathComparisonMode) -> (r: Vec<T>)
    requires
        rows_at_own_keys(m.as_map(), mode),
    ensures
        lists_rows(r@, m.as_map(), mode),
{
    let pairs = m.pairs();
    let ghost keys = m.keys();
    let mut out: Vec<T> = Vec::new();
    let mut i: usize = 0;
    while i < pairs.len()
        invariant
            i <= pairs@.len(),
            pairs@.len() == keys.len(),
            keys == m.keys(),
            ascending(keys),
            m.vals().len() == keys.len(),
            rows_at_own_keys(m.as_map(), mode),
            forall|t: int| 0 <= t < pairs@.len() ==> (#[trigger] pairs@[t]).0@ == keys[t] && pairs@[t].1 == m.vals()[t],
            out@.len() == i,
            forall|t: int| 0 <= t < i ==> #[trigger] out@[t] == m.as_map()[keys[t]] && m.as_map().contains_key(keys[t]),
        decreases pairs@.len() - i,
    {
        proof {
            lemma_index_of_ascending(keys, i as int);
        }
        out.push(pairs[i].1.copy_row());
        i = i + 1;
    }
    proof {
        assert forall|t: int| 0 <= t < out@.len() implies path_key_spec((#[trigger] out@[t]).row_path(), mode) == keys[t] by {}
        assert forall|k: Seq<char>| #[trigger] m.as_map().contains_key(k) implies exists|t: int|
            0 <= t < out@.len() && path_key_spec(out@[t].row_path(), mode) == k by {
            assert(keys.contains(k));
            let t = choose|t: int| 0 <= t < keys.len() && keys[t] == k;
            assert(path_key_spec(out@[t].row_path(), mode) == keys[t]);
        }
    }
    out
}

/// The map's paths in key order.
fn listed_paths(m: &StrMap<String>, mode: PathComparisonMode) -> (r: Vec<String>)
    requires
        paths_at_own_keys(path_map_view(m.as_map()), mode),
    ensures
        lists_paths(strings_view(r@), path_map_view(m.as_map()), mode),
{
    let pairs = m.pairs();
    let ghost keys = m.keys();
    let ghost pm = path_map_view(m.as_map());
    let mut out: Vec<String> = Vec::new();
    let mut i: usize = 0;
    while i < pairs.len()
        invariant
            i <= pairs@.len(),
            pairs@.len() == keys.len(),
            keys == m.keys(),
            ascending(keys),
            m.vals().len() == keys.len(),
            pm == path_map_view(m.as_map()),
            paths_at_own_keys(pm, mode),
            forall|t: int| 0 <= t < pairs@.len() ==> (#[trigger] pairs@[t]).0@ == keys[t] && pairs@[t].1 == m.vals()[t],
            out@.len() == i,
            forall|t: int| 0 <= t < i ==> (#[trigger] out@[t])@ == pm[keys[t]] && pm.contains_key(keys[t]),
        decreases pairs@.len() - i,
    {
        proof {
            lemma_index_of_ascending(keys, i as int);
        }
        out.push(pairs[i].1.clone());
        i = i + 1;
    }
    proof {
        let sv = strings_view(out@);
        assert forall|t: int| 0 <= t < sv.len() implies path_key_spec(#[trigger] sv[t], mode) == keys[t] by {
            assert(sv[t] == out@[t]@);
        }
        assert forall|k: Seq<char>| #[trigger] pm.contains_key(k) implies exists|t: int|
            0 <= t < sv.len() && path_key_spec(sv[t], mode) == k by {
            assert(keys.contains(k));
            let t = choose|t: int| 0 <= t < keys.len() && keys[t] == k;
            assert(path_key_spec(sv[t], mode) == keys[t]);
        }
        assert forall|t: int| 0 <= t < sv.len() implies pm.contains_key(path_key_spec(#[trigger] sv[t], mode)) && pm[path_key_spec(sv[t], mode)] == sv[t] by {
            assert(sv[t] == out@[t]@);
        }
    }
    out
}

/// The longest ancestor chain among all the paths a merge looks at.
pub open spec fn merge_chain<T: PathRow>(
    rows: Seq<T>,
    removals: Seq<Seq<char>>,
    new_rows: Seq<T>,
    new_removals: Seq<Seq<char>>,
) -> nat {
    max_chain(removals + new_removals + row_paths(rows) + row_paths(new_rows))
}

/// Merges one kind of rows: the rows and removals of the earlier result with
/// those of the new one.
fn merge_rows<T: PathRow>(
    rows: Vec<T>,
    removals: Vec<String>,
    new_rows: Vec<T>,
    new_removals: Vec<String>,
    mode: PathComparisonMode,
    work: &mut usize,
) -> (r: (Vec<T>, Vec<String>))
    ensures
        lists_rows(
            r.0@,
            merged_rows(rows@, strings_view(removals@), new_rows@, strings_view(new_removals@), mode).0,
            mode,
        ),
        lists_paths(
            strings_view(r.1@),
            merged_rows(rows@, strings_view(removals@), new_rows@, strings_view(new_removals@), mode).1,
            mode,
        ),
        *old(work) <= *final(work),
        *final(work) <= *old(work) + (removals@.len() + new_removals@.len() + rows@.len() + new_rows@.len()) * merge_chain(
            rows@,
            strings_view(removals@),
            new_rows@,
            strings_view(new_removals@),
        ),
{
    let ghost chain = merge_chain(rows@, strings_view(removals@), new_rows@, strings_view(new_removals@));
    let ghost all = strings_view(removals@) + strings_view(new_removals@) + row_paths(rows@) + row_paths(new_rows@);
    let ghost w0 = *work;
    let mut all_removals = removals;
    let mut more = new_removals;
    let ghost rv = strings_view(all_removals@);
    let ghost nv = strings_view(more@);
    all_removals.append(&mut more);
    proof {
        assert(strings_view(all_removals@) =~= rv + nv);
    }
    let r0 = key_paths(&all_removals, mode);
    proof {
        assert forall|k: Seq<char>| #[trigger] r0.as_map().contains_key(k) implies ancestors(r0.as_map()[k]@).len() <= chain by {
            let p = r0.as_map()[k]@;
            let t = choose|t: int| 0 <= t < (rv + nv).len() && (rv + nv)[t] == p;
            assert(all[t] == p);
            lemma_max_chain(all, p);
        }
    }
    let r1 = collapse_removals(&r0, mode, work, Ghost(chain));
    let u0 = key_rows(&rows, mode);
    proof {
        assert forall|k: Seq<char>| #[trigger] u0.as_map().contains_key(k) implies ancestors(u0.as_map()[k].row_path()).len() <= chain by {
            let p = u0.as_map()[k].row_path();
            let t = choose|t: int| 0 <= t < row_paths(rows@).len() && row_paths(rows@)[t] == p;
            assert(all[rv.len() + nv.len() + t] == p);
            lemma_max_chain(all, p);
        }
    }
    let mut u1 = uncover_rows(&u0, &r1, mode, work, Ghost(chain));
    let mut r2 = r1;
    proof {
        assert forall|t: int| 0 <= t < new_rows@.len() implies ancestors((#[trigger] new_rows@[t]).row_path()).len() <= chain by {
            let p = new_rows@[t].row_path();
            assert(row_paths(new_rows@)[t] == p);
            assert(all[rv.len() + nv.len() + row_paths(rows@).len() + t] == p);
            lemma_max_chain(all, p);
        }
        assert(rows_at_own_keys(u1.as_map(), mode));
        assert(paths_at_own_keys(path_map_view(r2.as_map()), mode));
        lemma_new_rows_keep_keys(u1.as_map(), path_map_view(r2.as_map()), new_rows@, mode);
    }
    let ghost rk = collapsed(keyed_paths(rv + nv, mode), mode);
    proof {
        assert(path_map_view(r0.as_map()) == keyed_paths(rv + nv, mode));
        assert(path_map_view(r1.as_map()) == rk);
        assert(r1.as_map().dom() =~= rk.dom());
        assert(u1.as_map() == uncovered(keyed_rows(rows@, mode), rk.dom(), mode));
    }
    apply_new_rows(&mut u1, &mut r2, &new_rows, mode, work, Ghost(chain));
    proof {
        assert((u1.as_map(), path_map_view(r2.as_map())) == merged_rows(rows@, rv, new_rows@, nv, mode));
    }
    let out_rows = listed_rows(&u1, mode);
    let out_paths = listed_paths(&r2, mode);
    proof {
        let nr = removals@.len() + new_removals@.len();
        assert(r0.as_map().dom().len() <= nr);
        assert(u0.as_map().dom().len() <= rows@.len());
        assert(r0.as_map().dom().len() * chain <= nr * chain) by (nonlinear_arith)
            requires r0.as_map().dom().len() <= nr;
        assert(u0.as_map().dom().len() * chain <= rows@.len() * chain) by (nonlinear_arith)
            requires u0.as_map().dom().len() <= rows@.len();
        assert((nr + rows@.len() + new_rows@.len()) * chain == nr * chain + rows@.len() * chain + new_rows@.len() * chain)
            by (nonlinear_arith);
    }
    (out_rows, out_paths)
}

/// `after` is `before` merged with `source`: entries and manifest rows by
/// path key with removals covering what lies below them and new rows reviving
/// their ancestors, each listed in key order, and the failures of both.
pub open spec fn merged_scan(
    before: TargetedScanResult,
    source: TargetedScanResult,
    after: TargetedScanResult,
    mode: PathComparisonMode,
) -> bool {
    let entries = merged_rows(
        before.upserts@,
        strings_view(before.removals@),
        source.upserts@,
        strings_view(source.removals@),
        mode,
    );
    let manifest = merged_rows(
        before.manifest_upserts@,
        strings_view(before.manifest_removals@),
        source.manifest_upserts@,
        strings_view(source.manifest_removals@),
        mode,
    );
    &&& lists_rows(after.upserts@, entries.0, mode)
    &&& lists_paths(strings_view(after.removals@), entries.1, mode)
    &&& lists_rows(after.manifest_upserts@, manifest.0, mode)
    &&& lists_paths(strings_view(after.manifest_removals@), manifest.1, mode)
    &&& after.failures@ == before.failures@ + source.failures@
}

/// The most ancestor steps a merge takes: every path it looks at, times the
/// longest ancestor chain among them.
pub open spec fn merge_work_bound(before: TargetedScanResult, source: TargetedScanResult) -> nat {
    (before.removals@.len() + source.removals@.len() + before.upserts@.len() + source.upserts@.len()) * merge_chain(
        before.upserts@,
        strings_view(before.removals@),
        source.upserts@,
        strings_view(source.removals@),
    ) + (before.manifest_removals@.len() + source.manifest_removals@.len() + before.manifest_upserts@.len()
        + source.manifest_upserts@.len()) * merge_chain(
        before.manifest_upserts@,
        strings_view(before.manifest_removals@),
        source.manifest_upserts@,
        strings_view(source.manifest_removals@),
    )
}

/// Merges `source` into `target` under a path comparison mode, and returns
/// the ancestor steps taken.
pub fn merge_targeted_scan_result_for_mode(
    target: &mut TargetedScanResult,
    source: TargetedScanResult,
    mode: PathComparisonMode,
) -> (work: usize)
    ensures
        merged_scan(*old(target), source, *final(target), mode),
        work <= merge_work_bound(*old(target), source),
{
    let ghost before = *target;
    let ghost src = source;
    let TargetedScanResult {
        upserts: source_upserts,
        removals: source_removals,
        manifest_upserts: source_manifest_upserts,
        manifest_removals: source_manifest_removals,
        failures: mut source_failures,
    } = source;
    let mut work: usize = 0;
    let mut upserts = Vec::new();
    std::mem::swap(&mut upserts, &mut target.upserts);
    let mut removals = Vec::new();
    std::mem::swap(&mut removals, &mut target.removals);
    let (entries, entry_removals) = merge_rows(upserts, removals, source_upserts, source_removals, mode, &mut work);
    let ghost w1 = work;
    let mut manifest_upserts = Vec::new();
    std::mem::swap(&mut manifest_upserts, &mut target.manifest_upserts);
    let mut manifest_removals = Vec::new();
    std::mem::swap(&mut manifest_removals, &mut target.manifest_removals);
    let (rows, row_removals) = merge_rows(
        manifest_upserts,
        manifest_removals,
        source_manifest_upserts,
        source_manifest_removals,
        mode,
        &mut work,
    );
    target.upserts = entries;
    target.removals = entry_removals;
    target.manifest_upserts = rows;
    target.manifest_removals = row_removals;
    target.failures.append(&mut source_failures);
    proof {
        assert(target.failures@ =~= before.failures@ + src.failures@);
    }
    work
}

/// `merge_targeted_scan_result_for_mode` with the platform's path comparison.
pub fn merge_targeted_scan_result_with_work(target: &mut TargetedScanResult, source: TargetedScanResult) -> (work: usize)
    ensures
        exists|mode: PathComparisonMode| #[trigger] merged_scan(*old(target), source, *final(target), mode),
        work <= merge_work_bound(*old(target), source),
{
    let mode = PathComparisonMode::native();
    merge_targeted_scan_result_for_mode(target, source, mode)
}

proof fn lemma_new_rows_stay_uncovered<T: PathRow>(
    u: Map<Seq<char>, T>,
    r: Map<Seq<char>, Seq<char>>,
    rows: Seq<T>,
    mode: PathComparisonMode,
)
    requires
        forall|k: Seq<char>| #[trigger] u.contains_key(k) ==> !ancestor_hit(u[k].row_path(), r.dom(), mode, 0),
    ensures
        forall|k: Seq<char>| #[trigger] with_new_rows(u, r, rows, mode).0.contains_key(k) ==> !ancestor_hit(
            with_new_rows(u, r, rows, mode).0[k].row_path(),
            with_new_rows(u, r, rows, mode).1.dom(),
            mode,
            0,
        ),
    decreases rows.len(),
{
    if rows.len() > 0 {
        lemma_new_rows_stay_uncovered(u, r, rows.drop_last(), mode);
        let (u1, r1) = with_new_rows(u, r, rows.drop_last(), mode);
        let (u2, r2) = with_new_rows(u, r, rows, mode);
        let s = rows.last();
        assert forall|k: Seq<char>| #[trigger] u2.contains_key(k) implies !ancestor_hit(u2[k].row_path(), r2.dom(), mode, 0) by {
            let p = u2[k].row_path();
            if ancestor_hit(p, r2.dom(), mode, 0) {
                let i = choose|i: int| 0 <= i < ancestors(p).len() && r2.dom().contains(path_key_spec(#[trigger] ancestors(p)[i], mode));
                if k == path_key_spec(s.row_path(), mode) {
                    assert(u2[k] == s);
                    assert(ancestor_keys(s.row_path(), mode).contains(path_key_spec(ancestors(p)[i], mode)));
                } else {
                    assert(u1.contains_key(k) && u2[k] == u1[k]);
                    assert(r1.dom().contains(path_key_spec(ancestors(p)[i], mode)));
                }
            }
        }
    }
}

/// Law: after a merge no row lies at or below a path that remains removed.
pub proof fn lemma_merged_rows_are_not_removed<T: PathRow>(
    rows: Seq<T>,
    removals: Seq<Seq<char>>,
    new_rows: Seq<T>,
    new_removals: Seq<Seq<char>>,
    mode: PathComparisonMode,
)
    ensures
        forall|k: Seq<char>| #[trigger] merged_rows(rows, removals, new_rows, new_removals, mode).0.contains_key(k)
            ==> !ancestor_hit(
            merged_rows(rows, removals, new_rows, new_removals, mode).0[k].row_path(),
            merged_rows(rows, removals, new_rows, new_removals, mode).1.dom(),
            mode,
            0,
        ),
{
    let r1 = collapsed(keyed_paths(removals + new_removals, mode), mode);
    lemma_new_rows_stay_uncovered(uncovered(keyed_rows(rows, mode), r1.dom(), mode), r1, new_rows, mode);
}

} // verus!
