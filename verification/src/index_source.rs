//! What full-index sources report, and the lexical root compression that keeps a
//! root only when no other configured root covers it.

use vstd::prelude::*;
use crate::index_entry::{IndexScanStats, PathComparisonMode};
use crate::paths::strings_view;
use crate::text::{
    chars_of, has_prefix, has_suffix, lower, lower_chars, replace_chars, replace_char, slice_chars,
    starts_with_chars, chars_eq, string_from_chars, unicode_lower, unicode_lowercase,
};

verus! {

broadcast use vstd::string::group_string_axioms;

#[derive(Debug, Clone, Copy, PartialEq, Eq, Structural)]
pub enum IndexSourceKind {
    Generic,
    WindowsNtfsWin32,
}

#[derive(Debug, Clone, Copy, PartialEq, Eq, Structural)]
pub enum IndexSourcePhase {
    Probing,
    Enumerating,
    Completed,
}

#[derive(Debug, Clone, PartialEq, Eq)]
pub struct IndexSourceProgress {
    pub source: IndexSourceKind,
    pub phase: IndexSourcePhase,
    pub root: Option<String>,
    pub stats: IndexScanStats,
}

impl IndexSourceProgress {
    pub fn new(source: IndexSourceKind, phase: IndexSourcePhase, root: Option<&str>, stats: IndexScanStats) -> (r: Self)
        ensures
            r.source == source,
            r.phase == phase,
            r.stats == stats,
            match root {
                Some(p) => r.root matches Some(q) && q@ == p@,
                None => r.root is None,
            },
    {
        let root = match root {
            Some(p) => Some(p.to_owned()),
            None => None,
        };
        IndexSourceProgress { source, phase, root, stats }
    }
}

/// Why a source stopped before completing: cancellation, or an I/O failure with
/// its message.
#[derive(Debug, Clone, PartialEq, Eq)]
pub enum IndexSourceError {
    Cancelled,
    Io(String),
}

impl IndexSourceError {
    /// The text the source reports for the error.
    pub fn message(&self) -> (r: String)
        ensures
            match self {
                IndexSourceError::Cancelled => r@ == "index source scan was cancelled"@,
                IndexSourceError::Io(m) => r@ == m@,
            },
    {
        match self {
            IndexSourceError::Cancelled => "index source scan was cancelled".to_owned(),
            IndexSourceError::Io(m) => m.clone(),
        }
    }
}

/// Where a source resumes: the directories still to scan and what was counted.
#[derive(Debug, Clone, PartialEq, Eq)]
pub struct IndexSourceResume {
    pub pending_directories: Vec<String>,
    pub completed_stats: IndexScanStats,
}

impl IndexSourceResume {
    /// A scan of `root` from the start.
    pub fn fresh(root: String) -> (r: Self)
        ensures
            r.pending_directories@ == seq![root],
            r.completed_stats == (IndexScanStats { scanned: 0, accepted: 0, skipped: 0, failures: 0 }),
    {
        let mut pending_directories: Vec<String> = Vec::new();
        pending_directories.push(root);
        IndexSourceResume {
            pending_directories,
            completed_stats: IndexScanStats { scanned: 0, accepted: 0, skipped: 0, failures: 0 },
        }
    }
}

// ---------------------------------------------------------------------------
// Path keys
// ---------------------------------------------------------------------------

/// A path ends in a separator that is not its root: more than one character, a
/// final `/`, and not a drive root such as `c:/`.
pub open spec fn has_non_root_trailing_slash(p: Seq<char>) -> bool {
    &&& p.len() > 1
    &&& p.last() == '/'
    &&& !(p.len() == 3 && p[1] == ':' && p[0] < '\u{80}')
}

/// `p` without the separators that end it, keeping a lone `/` and a drive root.
pub open spec fn trim_non_root_trailing_slashes_spec(p: Seq<char>) -> Seq<char>
    decreases p.len(),
{
    if has_non_root_trailing_slash(p) {
        trim_non_root_trailing_slashes_spec(p.drop_last())
    } else {
        p
    }
}

/// `p` with every run of `/` shortened to one.
pub open spec fn collapse_slashes(p: Seq<char>) -> Seq<char>
    decreases p.len(),
{
    if p.len() == 0 {
        p
    } else {
        let r = collapse_slashes(p.drop_last());
        if p.last() == '/' && r.len() > 0 && r.last() == '/' {
            r
        } else {
            r.push(p.last())
        }
    }
}

/// The Windows comparison key of a path: slashes for backslashes, the `\\?\`
/// and `\\?\UNC\` device prefixes removed (a UNC path keeps its leading `//`),
/// repeated separators collapsed, lower-cased, trailing separators trimmed.
pub open spec fn windows_key(path: Seq<char>) -> Seq<char> {
    let n0 = replace_char(path, '\\', '/');
    let l = lower(n0);
    let n1 = if has_prefix(l, "//?/unc/"@) {
        seq!['/', '/'] + n0.skip(8)
    } else if has_prefix(l, "//?/"@) {
        n0.skip(4)
    } else {
        n0
    };
    let c = collapse_slashes(n1);
    let c2 = if has_prefix(n1, seq!['/', '/']) && !has_prefix(c, seq!['/', '/']) {
        seq!['/'] + c
    } else {
        c
    };
    trim_non_root_trailing_slashes_spec(unicode_lower(c2))
}

/// The native comparison key: slashes for backslashes, trailing separators
/// trimmed; the Windows key where the platform is Windows.
pub open spec fn native_key(path: Seq<char>, mode: PathComparisonMode) -> Seq<char> {
    if mode == PathComparisonMode::Windows {
        windows_key(replace_char(path, '\\', '/'))
    } else {
        trim_non_root_trailing_slashes_spec(replace_char(path, '\\', '/'))
    }
}

fn trim_non_root_trailing_slashes(path: Vec<char>) -> (r: Vec<char>)
    ensures
        r@ == trim_non_root_trailing_slashes_spec(path@),
{
    let mut p = path;
    let ghost orig = path@;
    loop
        invariant
            trim_non_root_trailing_slashes_spec(p@) == trim_non_root_trailing_slashes_spec(orig),
            orig == path@,
        decreases p@.len(),
    {
        let n = p.len();
        if n > 1 && p[n - 1] == '/' && !(n == 3 && p[1] == ':' && p[0] < '\u{80}') {
            let ghost before = p@;
            p.pop();
            proof {
                assert(p@ =~= before.drop_last());
            }
        } else {
            proof {
                assert(!has_non_root_trailing_slash(p@));
                assert(trim_non_root_trailing_slashes_spec(p@) == p@);
                assert(p@ == trim_non_root_trailing_slashes_spec(orig));
            }
            return p;
        }
    }
}

fn collapse_slashes_exec(p: &[char]) -> (r: Vec<char>)
    ensures
        r@ == collapse_slashes(p@),
{
    let mut out: Vec<char> = Vec::new();
    let mut i: usize = 0;
    while i < p.len()
        invariant
            i <= p@.len(),
            out@ == collapse_slashes(p@.take(i as int)),
        decreases p@.len() - i,
    {
        proof {
            assert(p@.take(i + 1).drop_last() =~= p@.take(i as int));
        }
        let n = out.len();
        if !(p[i] == '/' && n > 0 && out[n - 1] == '/') {
            out.push(p[i]);
        }
        i = i + 1;
    }
    proof {
        assert(p@.take(p@.len() as int) =~= p@);
    }
    out
}

/// Normalizes a Windows path for comparison only; the spelling shown to users is
/// kept elsewhere.
pub fn normalize_windows_path_text(path: &str) -> (r: String)
    ensures
        r@ == windows_key(path@),
{
    let chars = chars_of(path);
    let n0 = replace_chars(chars.as_slice(), '\\', '/');
    let l = lower_chars(n0.as_slice());
    let unc = chars_of("//?/unc/");
    let dev = chars_of("//?/");
    let n1: Vec<char> = if starts_with_chars(l.as_slice(), unc.as_slice()) {
        proof {
            reveal_strlit("//?/unc/");
        }
        let mut v: Vec<char> = Vec::new();
        v.push('/');
        v.push('/');
        let rest = slice_chars(n0.as_slice(), 8, n0.len());
        let mut k: usize = 0;
        while k < rest.len()
            invariant
                k <= rest@.len(),
                v@ == seq!['/', '/'] + rest@.take(k as int),
            decreases rest@.len() - k,
        {
            v.push(rest[k]);
            proof {
                assert(rest@.take(k + 1) =~= rest@.take(k as int).push(rest@[k as int]));
            }
            k = k + 1;
        }
        proof {
            assert(rest@.take(rest@.len() as int) =~= rest@);
            assert(rest@ =~= n0@.skip(8));
        }
        v
    } else if starts_with_chars(l.as_slice(), dev.as_slice()) {
        proof {
            reveal_strlit("//?/");
        }
        let v = slice_chars(n0.as_slice(), 4, n0.len());
        proof {
            assert(v@ =~= n0@.skip(4));
        }
        v
    } else {
        n0
    };
    let slashes = chars_of("//");
    proof {
        reveal_strlit("//");
        assert(slashes@ =~= seq!['/', '/']);
    }
    let has_unc_prefix = starts_with_chars(n1.as_slice(), slashes.as_slice());
    let c = collapse_slashes_exec(n1.as_slice());
    let c2: Vec<char> = if has_unc_prefix && !starts_with_chars(c.as_slice(), slashes.as_slice()) {
        let mut v: Vec<char> = Vec::new();
        v.push('/');
        let mut k: usize = 0;
        while k < c.len()
            invariant
                k <= c@.len(),
                v@ == seq!['/'] + c@.take(k as int),
            decreases c@.len() - k,
        {
            v.push(c[k]);
            proof {
                assert(c@.take(k + 1) =~= c@.take(k as int).push(c@[k as int]));
            }
            k = k + 1;
        }
        proof {
            assert(c@.take(c@.len() as int) =~= c@);
        }
        v
    } else {
        c
    };
    let c2s = string_from_chars(c2.as_slice());
    let lowered = unicode_lowercase(c2s.as_str());
    let lc = chars_of(lowered.as_str());
    let trimmed = trim_non_root_trailing_slashes(lc);
    string_from_chars(trimmed.as_slice())
}

/// The comparison key of a root on this platform.
fn native_path_key(path: &str, mode: PathComparisonMode) -> (r: Vec<char>)
    ensures
        r@ == native_key(path@, mode),
{
    let chars = chars_of(path);
    let slashed = replace_chars(chars.as_slice(), '\\', '/');
    if mode == PathComparisonMode::Windows {
        let text = string_from_chars(slashed.as_slice());
        let key = normalize_windows_path_text(text.as_str());
        chars_of(key.as_str())
    } else {
        trim_non_root_trailing_slashes(slashed)
    }
}

/// `candidate` is `root` or lies below it, comparing keys as text.
pub open spec fn key_covers(root: Seq<char>, candidate: Seq<char>) -> bool {
    ||| candidate == root
    ||| (root == seq!['/'] && has_prefix(candidate, seq!['/']))
    ||| (has_suffix(root, seq!['/']) && has_prefix(candidate, root))
    ||| (has_prefix(candidate, root) && candidate.len() > root.len() && candidate[root.len() as int] == '/')
}

fn key_covers_exec(root: &[char], candidate: &[char]) -> (r: bool)
    ensures
        r == key_covers(root@, candidate@),
{
    if chars_eq(candidate, root) {
        return true;
    }
    let prefixed = starts_with_chars(candidate, root);
    let n = root.len();
    if n == 1 && root[0] == '/' && candidate.len() > 0 && candidate[0] == '/' {
        proof {
            assert(root@ =~= seq!['/']);
            assert(candidate@.subrange(0, 1) =~= seq!['/']);
        }
        return true;
    }
    proof {
        if root@ == seq!['/'] && has_prefix(candidate@, seq!['/']) {
            assert(candidate@.subrange(0, 1)[0] == '/');
        }
        if has_suffix(root@, seq!['/']) {
            assert(root@.subrange(root@.len() - 1, root@.len() as int)[0] == root@[root@.len() - 1]);
        }
    }
    if n > 0 && root[n - 1] == '/' && prefixed {
        proof {
            assert(root@.subrange(n - 1, n as int) =~= seq!['/']);
        }
        return true;
    }
    let r = prefixed && candidate.len() > n && candidate[n] == '/';
    proof {
        if has_suffix(root@, seq!['/']) {
            assert(root@[n - 1] == '/');
        }
    }
    r
}

/// Root `i` is covered: another root has the same key and comes first, or has
/// another key that covers it.
pub open spec fn covered(keys: Seq<Seq<char>>, i: int) -> bool {
    exists|j: int|
        0 <= j < keys.len() && j != i && ((#[trigger] keys[j] == keys[i] && j < i) || (keys[j] != keys[i]
            && key_covers(keys[j], keys[i])))
}

/// The roots among the first `n` that no other root covers, in order.
pub open spec fn uncovered_roots(roots: Seq<Seq<char>>, keys: Seq<Seq<char>>, n: int) -> Seq<Seq<char>>
    decreases n,
{
    if n <= 0 {
        Seq::empty()
    } else if covered(keys, n - 1) {
        uncovered_roots(roots, keys, n - 1)
    } else {
        uncovered_roots(roots, keys, n - 1).push(roots[n - 1])
    }
}

/// Views of a list of keys.
pub open spec fn keys_view(v: Seq<Vec<char>>) -> Seq<Seq<char>> {
    Seq::new(v.len(), |i: int| v[i]@)
}

fn compress_by_keys(roots: &[String], keys: &Vec<Vec<char>>) -> (r: Vec<String>)
    requires
        keys@.len() == roots@.len(),
    ensures
        strings_view(r@) == uncovered_roots(strings_view(roots@), keys_view(keys@), roots@.len() as int),
{
    let ghost kv = keys_view(keys@);
    let ghost rv = strings_view(roots@);
    let mut out: Vec<String> = Vec::new();
    let mut i: usize = 0;
    while i < roots.len()
        invariant
            i <= roots@.len(),
            keys@.len() == roots@.len(),
            kv == keys_view(keys@),
            rv == strings_view(roots@),
            strings_view(out@) == uncovered_roots(rv, kv, i as int),
        decreases roots@.len() - i,
    {
        let mut is_covered = false;
        let mut j: usize = 0;
        while j < keys.len()
            invariant
                j <= keys@.len(),
                i < keys@.len(),
                kv == keys_view(keys@),
                is_covered == exists|m: int|
                    0 <= m < j && m != i && ((#[trigger] kv[m] == kv[i as int] && m < i) || (kv[m] != kv[i as int]
                        && key_covers(kv[m], kv[i as int]))),
            decreases keys@.len() - j,
        {
            if j != i {
                let same = chars_eq(keys[j].as_slice(), keys[i].as_slice());
                let hit = (same && j < i) || (!same && key_covers_exec(keys[j].as_slice(), keys[i].as_slice()));
                if hit {
                    is_covered = true;
                }
            }
            proof {
                if is_covered {
                    if exists|m: int|
                        0 <= m < j && m != i && ((#[trigger] kv[m] == kv[i as int] && m < i) || (kv[m]
                            != kv[i as int] && key_covers(kv[m], kv[i as int]))) {
                    } else {
                        assert(kv[j as int] == keys@[j as int]@);
                    }
                }
            }
            j = j + 1;
        }
        proof {
            assert(is_covered == covered(kv, i as int));
        }
        let ghost before = strings_view(out@);
        if !is_covered {
            out.push(roots[i].clone());
            proof {
                assert(strings_view(out@) =~= before.push(rv[i as int]));
            }
        }
        i = i + 1;
    }
    out
}

/// Root compression with the keys of comparison mode `mode`.
pub fn compress_covered_roots_for_mode(roots: &[String], mode: PathComparisonMode) -> (r: Vec<String>)
    ensures
        strings_view(r@) == uncovered_roots(
            strings_view(roots@),
            Seq::new(roots@.len(), |i: int| native_key(roots@[i]@, mode)),
            roots@.len() as int,
        ),
{
    let mut keys: Vec<Vec<char>> = Vec::new();
    let mut i: usize = 0;
    while i < roots.len()
        invariant
            i <= roots@.len(),
            keys@.len() == i,
            keys_view(keys@) == Seq::new(i as nat, |k: int| native_key(roots@[k]@, mode)),
        decreases roots@.len() - i,
    {
        let key = native_path_key(roots[i].as_str(), mode);
        let ghost before = keys@;
        keys.push(key);
        proof {
            assert(keys@ == before.push(key));
            assert(keys_view(keys@)[i as int] == native_key(roots@[i as int]@, mode));
            assert forall|k: int| 0 <= k < i implies #[trigger] keys_view(keys@)[k] == keys_view(before)[k] by {}
            assert(keys_view(keys@) =~= Seq::new((i + 1) as nat, |k: int| native_key(roots@[k]@, mode)));
        }
        i = i + 1;
    }
    proof {
        assert(keys_view(keys@) =~= Seq::new(roots@.len(), |k: int| native_key(roots@[k]@, mode)));
    }
    compress_by_keys(roots, &keys)
}

/// Removes duplicate roots and roots another configured root covers, comparing
/// keys lexically, so roots need not exist; the keys are this platform's
/// (Windows keys where the separator is a backslash).
pub fn compress_covered_roots(roots: &[String]) -> (r: Vec<String>)
    ensures
        strings_view(r@) == uncovered_roots(
            strings_view(roots@),
            Seq::new(roots@.len(), |i: int| native_key(roots@[i]@, PathComparisonMode::Native)),
            roots@.len() as int,
        ) || strings_view(r@) == uncovered_roots(
            strings_view(roots@),
            Seq::new(roots@.len(), |i: int| native_key(roots@[i]@, PathComparisonMode::Windows)),
            roots@.len() as int,
        ),
{
    let mode = PathComparisonMode::native();
    compress_covered_roots_for_mode(roots, mode)
}

/// Root compression with Windows keys, whatever the platform.
pub fn compress_windows_covered_roots(roots: &[String]) -> (r: Vec<String>)
    ensures
        strings_view(r@) == uncovered_roots(
            strings_view(roots@),
            Seq::new(roots@.len(), |i: int| windows_key(roots@[i]@)),
            roots@.len() as int,
        ),
{
    let mut keys: Vec<Vec<char>> = Vec::new();
    let mut i: usize = 0;
    while i < roots.len()
        invariant
            i <= roots@.len(),
            keys@.len() == i,
            keys_view(keys@) == Seq::new(i as nat, |k: int| windows_key(roots@[k]@)),
        decreases roots@.len() - i,
    {
        let key = normalize_windows_path_text(roots[i].as_str());
        let kc = chars_of(key.as_str());
        let ghost before = keys@;
        keys.push(kc);
        proof {
            assert(keys@ == before.push(kc));
            assert(keys_view(keys@)[i as int] == windows_key(roots@[i as int]@));
            assert forall|k: int| 0 <= k < i implies #[trigger] keys_view(keys@)[k] == keys_view(before)[k] by {}
            assert(keys_view(keys@) =~= Seq::new((i + 1) as nat, |k: int| windows_key(roots@[k]@)));
        }
        i = i + 1;
    }
    proof {
        assert(keys_view(keys@) =~= Seq::new(roots@.len(), |k: int| windows_key(roots@[k]@)));
    }
    compress_by_keys(roots, &keys)
}

} // verus!
