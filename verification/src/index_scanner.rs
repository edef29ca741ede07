//! What a scan is asked to do and what it reports per directory, and the path
//! rules every scanner applies: forced exclusions, application bundles, and the
//! bookkeeping of statistics and failures.

use vstd::prelude::*;
use crate::index_entry::{
    normalize_path_key_for_mode, path_key_spec, path_parent, same_or_descendant_key, std_path_parent, IndexFailure,
    IndexReport, IndexScanStats, IndexedEntryKind, PathComparisonMode, ScanEvent,
};
use crate::index_entry::path_is_same_or_descendant_for_mode;
use crate::file_matcher::{glob_matches_text, glob_set_accepts};
use crate::paths::{components_of, comps_equal, comps_view, path_components, same_path, strings_view};
use crate::layered_index::{ascending, StrSet};
use crate::str_map::{lemma_index_of_ascending, StrMap};
use crate::text::{
    chars_eq, chars_of, ends_with_chars, has_char, has_suffix, lower, lower_chars, string_from_chars,
};

verus! {

broadcast use vstd::string::group_string_axioms;

#[derive(Debug, Clone, PartialEq, Eq)]
pub struct IndexScanStage {
    pub name: String,
    pub root_priority: u32,
}

impl IndexScanStage {
    pub fn new(name: String, root_priority: u32) -> (r: Self)
        ensures
            r.name == name,
            r.root_priority == root_priority,
    {
        IndexScanStage { name, root_priority }
    }
}

#[derive(Debug, Clone, PartialEq, Eq)]
pub struct IndexScanPlan {
    pub include_roots: Vec<String>,
    pub exclude_dirs: Vec<String>,
    pub exclude_patterns: Vec<String>,
    pub respect_project_ignores: bool,
    pub stage: Option<IndexScanStage>,
}

impl Default for IndexScanPlan {
    /// No roots or exclusions, project ignore files respected.
    fn default() -> (r: Self)
        ensures
            r.include_roots@.len() == 0,
            r.exclude_dirs@.len() == 0,
            r.exclude_patterns@.len() == 0,
            r.respect_project_ignores,
            r.stage is None,
    {
        IndexScanPlan {
            include_roots: Vec::new(),
            exclude_dirs: Vec::new(),
            exclude_patterns: Vec::new(),
            respect_project_ignores: true,
            stage: None,
        }
    }
}

/// A directory a resumable scan finished: what it found below it and counted.
#[derive(Debug, Clone, PartialEq, Eq)]
pub struct IndexDirectoryScanCheckpoint {
    pub root: String,
    pub directory: String,
    pub discovered_directories: Vec<String>,
    pub stats: IndexScanStats,
    pub failure: Option<IndexFailure>,
}

/// `a - b`, or zero where that is negative.
pub open spec fn sat_sub(a: usize, b: usize) -> usize {
    if a >= b {
        (a - b) as usize
    } else {
        0
    }
}

/// What a scan counted between two snapshots of its statistics.
pub fn delta_stats(before: &IndexScanStats, after: &IndexScanStats) -> (r: IndexScanStats)
    ensures
        r == (IndexScanStats {
            scanned: sat_sub(after.scanned, before.scanned),
            accepted: sat_sub(after.accepted, before.accepted),
            skipped: sat_sub(after.skipped, before.skipped),
            failures: sat_sub(after.failures, before.failures),
        }),
{
    IndexScanStats {
        scanned: after.scanned.saturating_sub(before.scanned),
        accepted: after.accepted.saturating_sub(before.accepted),
        skipped: after.skipped.saturating_sub(before.skipped),
        failures: after.failures.saturating_sub(before.failures),
    }
}

/// Records a failure: counted, reported as an event, and kept.
pub fn push_failure(report: &mut IndexReport, failure: IndexFailure)
    requires
        old(report).scan_stats.failures < usize::MAX,
    ensures
        final(report).scan_stats == (IndexScanStats {
            failures: (old(report).scan_stats.failures + 1) as usize,
            ..old(report).scan_stats
        }),
        final(report).scan_events@ == old(report).scan_events@.push(ScanEvent::Failure(failure)),
        final(report).failures@ == old(report).failures@.push(failure),
        final(report).entries == old(report).entries,
{
    report.scan_stats.failures = report.scan_stats.failures + 1;
    let copy = IndexFailure { root: failure.root.clone(), message: failure.message.clone() };
    report.scan_events.push(ScanEvent::Failure(copy));
    report.failures.push(failure);
}

/// The names a scan never descends into or indexes, compared in ASCII lower case.
pub open spec fn forced_excluded_name(name: Seq<char>) -> bool {
    let l = lower(name);
    ||| l == ".git"@
    ||| l == "node_modules"@
    ||| l == "target"@
    ||| l == "$recycle.bin"@
    ||| l == "system volume information"@
    ||| l == "windows"@
    ||| l == "recovery"@
    ||| l == "appdata"@
    ||| l == ".cache"@
    ||| l == "__pycache__"@
    ||| l == ".venv"@
    ||| l == "venv"@
}

/// The name of a named component (its text after the kind tag).
pub open spec fn component_name(c: Seq<char>) -> Option<Seq<char>> {
    if c.len() > 0 && c[0] == '\u{4}' {
        Some(c.drop_first())
    } else {
        None
    }
}

/// A path's file name: its last component, when that is a named one.
pub open spec fn file_name(path: Seq<char>) -> Option<Seq<char>> {
    let comps = path_components(path);
    if comps.len() == 0 {
        None
    } else {
        component_name(comps.last())
    }
}

/// A path whose file name is always excluded.
pub open spec fn is_forced_excluded_spec(path: Seq<char>) -> bool {
    match file_name(path) {
        Some(n) => forced_excluded_name(n),
        None => false,
    }
}

/// Applications and their launchers: names ending in `.app`, `.exe`, `.lnk` or
/// `.desktop`, ASCII case ignored.
pub open spec fn application_name(name: Seq<char>) -> bool {
    let l = lower(name);
    has_suffix(l, ".app"@) || has_suffix(l, ".exe"@) || has_suffix(l, ".lnk"@) || has_suffix(l, ".desktop"@)
}

/// A path inside an application: one of its ancestors (itself excluded) is named
/// like an application.
pub open spec fn inside_app_bundle_spec(path: Seq<char>) -> bool {
    let comps = path_components(path);
    exists|i: int|
        0 <= i < comps.len() - 1 && #[trigger] component_name(comps[i]) is Some && application_name(
            component_name(comps[i])->0,
        )
}

fn name_of_component(c: &Vec<char>) -> (r: Option<Vec<char>>)
    ensures
        match r {
            Some(v) => component_name(c@) == Some(v@),
            None => component_name(c@) is None,
        },
{
    if c.len() == 0 || c[0] != '\u{4}' {
        return None;
    }
    let mut out: Vec<char> = Vec::new();
    let mut i: usize = 1;
    while i < c.len()
        invariant
            1 <= i <= c@.len(),
            out@ == c@.subrange(1, i as int),
        decreases c@.len() - i,
    {
        out.push(c[i]);
        proof {
            assert(c@.subrange(1, i + 1) =~= c@.subrange(1, i as int).push(c@[i as int]));
        }
        i = i + 1;
    }
    proof {
        assert(out@ =~= c@.drop_first());
    }
    Some(out)
}

fn lit_eq(s: &[char], lit: &str) -> (r: bool)
    ensures
        r == (s@ == lit@),
{
    let l = chars_of(lit);
    chars_eq(s, l.as_slice())
}

fn lit_suffix(s: &[char], lit: &str) -> (r: bool)
    ensures
        r == has_suffix(s@, lit@),
{
    let l = chars_of(lit);
    ends_with_chars(s, l.as_slice())
}

fn forced_excluded_name_exec(name: &[char]) -> (r: bool)
    ensures
        r == forced_excluded_name(name@),
{
    let l = lower_chars(name);
    let s = l.as_slice();
    lit_eq(s, ".git") || lit_eq(s, "node_modules") || lit_eq(s, "target") || lit_eq(s, "$recycle.bin")
        || lit_eq(s, "system volume information") || lit_eq(s, "windows") || lit_eq(s, "recovery")
        || lit_eq(s, "appdata") || lit_eq(s, ".cache") || lit_eq(s, "__pycache__") || lit_eq(s, ".venv")
        || lit_eq(s, "venv")
}

fn application_name_exec(name: &[char]) -> (r: bool)
    ensures
        r == application_name(name@),
{
    let l = lower_chars(name);
    let s = l.as_slice();
    lit_suffix(s, ".app") || lit_suffix(s, ".exe") || lit_suffix(s, ".lnk") || lit_suffix(s, ".desktop")
}

/// Whether a scan always excludes `path`, whatever the configuration says.
pub fn is_forced_excluded(path: &str) -> (r: bool)
    ensures
        r == is_forced_excluded_spec(path@),
{
    let comps = components_of(path);
    let n = comps.len();
    if n == 0 {
        return false;
    }
    proof {
        assert(comps_view(comps@).last() == comps@[n - 1]@);
    }
    match name_of_component(&comps[n - 1]) {
        Some(name) => forced_excluded_name_exec(name.as_slice()),
        None => false,
    }
}

/// Whether `path` lies inside an application bundle.
pub fn is_inside_app_bundle(path: &str) -> (r: bool)
    ensures
        r == inside_app_bundle_spec(path@),
{
    let comps = components_of(path);
    let ghost cv = comps_view(comps@);
    let n = comps.len();
    if n == 0 {
        return false;
    }
    let mut i: usize = 0;
    while i < n - 1
        invariant
            n == comps@.len(),
            n > 0,
            i <= n - 1,
            cv == comps_view(comps@),
            cv == path_components(path@),
            forall|k: int|
                0 <= k < i ==> !(#[trigger] component_name(cv[k]) is Some && application_name(
                    component_name(cv[k])->0,
                )),
        decreases n - 1 - i,
    {
        assert(cv[i as int] == comps@[i as int]@);
        match name_of_component(&comps[i]) {
            Some(name) => {
                if application_name_exec(name.as_slice()) {
                    return true;
                }
            },
            None => {},
        }
        i = i + 1;
    }
    false
}

/// A path named like an application or launcher.
pub open spec fn is_application_path_spec(path: Seq<char>) -> bool {
    match file_name(path) {
        Some(n) => application_name(n),
        None => false,
    }
}

/// Whether `path` is an application or launcher, by its file name.
pub fn is_application_path(path: &str) -> (r: bool)
    ensures
        r == is_application_path_spec(path@),
{
    let comps = components_of(path);
    let n = comps.len();
    if n == 0 {
        return false;
    }
    proof {
        assert(comps_view(comps@).last() == comps@[n - 1]@);
    }
    match name_of_component(&comps[n - 1]) {
        Some(name) => application_name_exec(name.as_slice()),
        None => false,
    }
}

/// The kind a scanned path is indexed as: an application by its name, else a
/// directory or a file; nothing for other file types.
pub fn entry_kind_for(path: &str, is_dir: bool, is_file: bool) -> (r: Option<IndexedEntryKind>)
    ensures
        r == (if is_application_path_spec(path@) {
            Some(IndexedEntryKind::Application)
        } else if is_dir {
            Some(IndexedEntryKind::Directory)
        } else if is_file {
            Some(IndexedEntryKind::File)
        } else {
            None
        }),
{
    if is_application_path(path) {
        Some(IndexedEntryKind::Application)
    } else if is_dir {
        Some(IndexedEntryKind::Directory)
    } else if is_file {
        Some(IndexedEntryKind::File)
    } else {
        None
    }
}

// ---------------------------------------------------------------------------
// Path rules of a plan
// ---------------------------------------------------------------------------

/// Whether `globset::Glob::new` accepts `pattern`.
pub uninterp spec fn glob_parses(pattern: Seq<char>) -> bool;

/// `globset::Glob::new(pattern).is_ok()`; the contract only names the result.
#[verifier::external_body]
fn glob_pattern_parses(pattern: &str) -> (r: bool)
    ensures
        r == glob_parses(pattern@),
{
    globset::Glob::new(pattern).is_ok()
}

/// The text `std::path::Path::strip_prefix` leaves of `path` below `base`.
pub uninterp spec fn std_path_strip_prefix(path: Seq<char>, base: Seq<char>) -> Option<Seq<char>>;

/// `Path::strip_prefix`: what follows `base`'s components in `path`, none when
/// they do not begin it; the contract only names the result.
#[verifier::external_body]
fn path_strip_prefix(path: &str, base: &str) -> (r: Option<String>)
    ensures
        match r {
            Some(s) => std_path_strip_prefix(path@, base@) == Some(s@),
            None => std_path_strip_prefix(path@, base@) is None,
        },
{
    std::path::Path::new(path).strip_prefix(base).ok().map(|rest| rest.to_string_lossy().into_owned())
}

/// The last component `std::path::Path::file_name` gives for `path`.
pub uninterp spec fn std_path_file_name(path: Seq<char>) -> Option<Seq<char>>;

/// `Path::file_name`: the final named component, none when the path ends in
/// `..` or a root; the contract only names the result.
#[verifier::external_body]
fn path_file_name(path: &str) -> (r: Option<String>)
    ensures
        match r {
            Some(s) => std_path_file_name(path@) == Some(s@),
            None => std_path_file_name(path@) is None,
        },
{
    std::path::Path::new(path).file_name().map(|name| name.to_string_lossy().into_owned())
}

/// Whether `globset` builds one `GlobSet` from all of `globs` (each parsed by
/// `Glob::new`).
pub uninterp spec fn glob_set_builds(globs: Seq<Seq<char>>) -> bool;

/// `Glob::new` for each glob, `GlobSetBuilder::add`, then `build`: whether the
/// combined set is built. The contract only names the result.
#[verifier::external_body]
fn glob_set_of_builds(globs: &[String]) -> (r: bool)
    ensures
        r == glob_set_builds(strings_view(globs@)),
{
    let mut builder = globset::GlobSetBuilder::new();
    for glob in globs {
        match globset::Glob::new(glob) {
            Ok(glob) => {
                builder.add(glob);
            },
            Err(_) => return false,
        }
    }
    builder.build().is_ok()
}

/// Why a plan's exclude patterns are refused.
#[derive(Debug, Clone, PartialEq, Eq)]
pub enum ExcludeGlobError {
    /// This glob does not parse.
    InvalidGlob(String),
    /// Each glob parses, but the set of all of them is not built.
    SetRefused,
}

/// The exclude globs of a plan, checked as one set: the first glob that does
/// not parse, or the refusal of the combined set.
pub fn exclude_glob_set(patterns: &[String]) -> (r: Result<Vec<String>, ExcludeGlobError>)
    ensures
        r matches Ok(globs) ==> strings_view(globs@) == exclude_globs_spec(patterns@) && glob_set_builds(
            exclude_globs_spec(patterns@),
        ),
        r matches Err(ExcludeGlobError::InvalidGlob(g)) ==> exclude_globs_spec(patterns@).contains(g@) && !glob_parses(
            g@,
        ),
        (r matches Err(ExcludeGlobError::InvalidGlob(_))) <==> !(forall|i: int|
            0 <= i < exclude_globs_spec(patterns@).len() ==> glob_parses(#[trigger] exclude_globs_spec(patterns@)[i])),
        r is Ok <==> (forall|i: int|
            0 <= i < exclude_globs_spec(patterns@).len() ==> glob_parses(#[trigger] exclude_globs_spec(patterns@)[i]))
            && glob_set_builds(exclude_globs_spec(patterns@)),
{
    match exclude_globs(patterns) {
        Ok(globs) => {
            if glob_set_of_builds(globs.as_slice()) {
                Ok(globs)
            } else {
                Err(ExcludeGlobError::SetRefused)
            }
        },
        Err(g) => Err(ExcludeGlobError::InvalidGlob(g)),
    }
}

/// The globs an exclude pattern stands for: the pattern lower-cased (ASCII),
/// and, when it names no directory, the same below any directory.
pub open spec fn pattern_globs(pattern: Seq<char>) -> Seq<Seq<char>> {
    let l = lower(pattern);
    if !l.contains('/') && !l.contains('\\') {
        seq![l, "**/"@ + l]
    } else {
        seq![l]
    }
}

/// The globs of all exclude patterns, in order.
pub open spec fn exclude_globs_spec(patterns: Seq<String>) -> Seq<Seq<char>>
    decreases patterns.len(),
{
    if patterns.len() == 0 {
        Seq::empty()
    } else {
        exclude_globs_spec(patterns.drop_last()) + pattern_globs(patterns.last()@)
    }
}

/// The globs of the exclude patterns, or the first glob that does not parse.
pub fn exclude_globs(patterns: &[String]) -> (r: Result<Vec<String>, String>)
    ensures
        r is Ok <==> forall|i: int| 0 <= i < exclude_globs_spec(patterns@).len() ==> glob_parses(
            #[trigger] exclude_globs_spec(patterns@)[i],
        ),
        r matches Ok(globs) ==> strings_view(globs@) == exclude_globs_spec(patterns@),
        r matches Err(g) ==> exclude_globs_spec(patterns@).contains(g@) && !glob_parses(g@),
{
    let mut globs: Vec<String> = Vec::new();
    let mut k: usize = 0;
    proof {
        assert(patterns@.take(0) =~= Seq::<String>::empty());
        assert(strings_view(globs@) =~= Seq::<Seq<char>>::empty());
    }
    while k < patterns.len()
        invariant
            k <= patterns@.len(),
            strings_view(globs@) == exclude_globs_spec(patterns@.take(k as int)),
            forall|i: int| 0 <= i < globs@.len() ==> glob_parses((#[trigger] globs@[i])@),
        decreases patterns@.len() - k,
    {
        proof {
            assert(patterns@.take(k + 1).drop_last() =~= patterns@.take(k as int));
            assert(patterns@.take(k + 1).last() == patterns@[k as int]);
        }
        let text = chars_of(patterns[k].as_str());
        let l = lower_chars(text.as_slice());
        let lowered = string_from_chars(l.as_slice());
        if !glob_pattern_parses(lowered.as_str()) {
            proof {
                lemma_globs_prefix(patterns@, k as int + 1);
                assert(exclude_globs_spec(patterns@.take(k + 1))[globs@.len() as int] == lowered@);
            }
            return Err(lowered);
        }
        let ghost before = globs@;
        globs.push(lowered);
        if !has_char(l.as_slice(), '/') && !has_char(l.as_slice(), '\\') {
            let mut any = chars_of("**/");
            let mut rest = l.clone();
            any.append(&mut rest);
            let anywhere = string_from_chars(any.as_slice());
            if !glob_pattern_parses(anywhere.as_str()) {
                proof {
                    lemma_globs_prefix(patterns@, k as int + 1);
                    assert(exclude_globs_spec(patterns@.take(k + 1))[before.len() as int + 1] == anywhere@);
                }
                return Err(anywhere);
            }
            globs.push(anywhere);
        }
        proof {
            assert(strings_view(globs@) =~= exclude_globs_spec(patterns@.take(k + 1)));
        }
        k = k + 1;
    }
    proof {
        assert(patterns@.take(patterns@.len() as int) =~= patterns@);
        assert forall|i: int| 0 <= i < exclude_globs_spec(patterns@).len() implies glob_parses(
            #[trigger] exclude_globs_spec(patterns@)[i],
        ) by {
            assert(strings_view(globs@)[i] == globs@[i]@);
        }
    }
    Ok(globs)
}

/// The globs of a prefix of the patterns begin the globs of all of them.
proof fn lemma_globs_prefix(patterns: Seq<String>, k: int)
    requires
        0 <= k <= patterns.len(),
    ensures
        exclude_globs_spec(patterns).len() >= exclude_globs_spec(patterns.take(k)).len(),
        forall|i: int| 0 <= i < exclude_globs_spec(patterns.take(k)).len() ==> exclude_globs_spec(patterns)[i]
            == #[trigger] exclude_globs_spec(patterns.take(k))[i],
    decreases patterns.len() - k,
{
    if k == patterns.len() {
        assert(patterns.take(k) =~= patterns);
    } else {
        lemma_globs_prefix(patterns, k + 1);
        assert(patterns.take(k + 1).drop_last() =~= patterns.take(k));
        let a = exclude_globs_spec(patterns.take(k));
        let b = exclude_globs_spec(patterns.take(k + 1));
        assert(b == a + pattern_globs(patterns.take(k + 1).last()@));
        assert forall|i: int| 0 <= i < a.len() implies exclude_globs_spec(patterns)[i] == #[trigger] a[i] by {
            assert(b[i] == a[i]);
        }
    }
}

/// Some glob accepts `text`, as a `GlobSet` of all of them would.
pub open spec fn globs_match(globs: Seq<Seq<char>>, text: Seq<char>) -> bool {
    exists|i: int| 0 <= i < globs.len() && #[trigger] glob_set_accepts(globs[i], text)
}

/// The exclude globs reject `path`: its final name or its whole text,
/// lower-cased (ASCII), is matched.
pub open spec fn pattern_excluded(globs: Seq<Seq<char>>, path: Seq<char>) -> bool {
    ||| (match std_path_file_name(path) {
        Some(name) => globs_match(globs, lower(name)),
        None => false,
    })
    ||| globs_match(globs, lower(path))
}

fn any_glob_matches(globs: &[String], text: &str) -> (r: bool)
    ensures
        r == globs_match(strings_view(globs@), text@),
{
    let mut i: usize = 0;
    while i < globs.len()
        invariant
            i <= globs@.len(),
            forall|j: int| 0 <= j < i ==> !glob_set_accepts(strings_view(globs@)[j], text@),
        decreases globs@.len() - i,
    {
        if glob_matches_text(globs[i].as_str(), text) {
            proof {
                assert(glob_set_accepts(strings_view(globs@)[i as int], text@));
            }
            return true;
        }
        i = i + 1;
    }
    false
}

fn lowered_text(s: &str) -> (r: String)
    ensures
        r@ == lower(s@),
{
    let c = chars_of(s);
    let l = lower_chars(c.as_slice());
    string_from_chars(l.as_slice())
}

/// Whether the exclude globs reject `path`.
pub fn patterns_exclude(globs: &[String], path: &str) -> (r: bool)
    ensures
        r == pattern_excluded(strings_view(globs@), path@),
{
    let name_matches = match path_file_name(path) {
        Some(name) => any_glob_matches(globs, lowered_text(name.as_str()).as_str()),
        None => false,
    };
    name_matches || any_glob_matches(globs, lowered_text(path).as_str())
}

/// The number of non-empty `/`-separated pieces of a key.
pub open spec fn component_runs(s: Seq<char>) -> nat
    decreases s.len(),
{
    if s.len() == 0 {
        0
    } else {
        component_runs(s.drop_last()) + if s.last() != '/' && (s.len() == 1 || s[s.len() - 2] == '/') {
            1nat
        } else {
            0nat
        }
    }
}

fn count_component_runs(s: &[char]) -> (r: usize)
    ensures
        r == component_runs(s@),
{
    let mut n: usize = 0;
    let mut i: usize = 0;
    while i < s.len()
        invariant
            i <= s@.len(),
            n == component_runs(s@.take(i as int)),
            n <= i,
        decreases s@.len() - i,
    {
        proof {
            assert(s@.take(i + 1).drop_last() =~= s@.take(i as int));
        }
        if s[i] != '/' && (i == 0 || s[i - 1] == '/') {
            n = n + 1;
        }
        i = i + 1;
    }
    proof {
        assert(s@.take(s@.len() as int) =~= s@);
    }
    n
}

/// `candidate` is a configured root at or above `path`.
pub open spec fn root_matches(candidate: Seq<char>, path: Seq<char>, mode: PathComparisonMode) -> bool {
    same_or_descendant_key(path_key_spec(candidate, mode), path_key_spec(path, mode))
}

/// The deepest candidate root at or above `path`, by the number of pieces of its
/// key; of equally deep ones the last.
pub open spec fn best_root(candidates: Seq<Seq<char>>, path: Seq<char>, mode: PathComparisonMode) -> Option<int>
    decreases candidates.len(),
{
    if candidates.len() == 0 {
        None
    } else {
        let n = candidates.len() - 1;
        let prev = best_root(candidates.drop_last(), path, mode);
        if root_matches(candidates[n], path, mode) {
            match prev {
                Some(b) => if component_runs(path_key_spec(candidates[n], mode)) >= component_runs(
                    path_key_spec(candidates[b], mode),
                ) {
                    Some(n)
                } else {
                    Some(b)
                },
                None => Some(n),
            }
        } else {
            prev
        }
    }
}

proof fn lemma_best_root_bounds(candidates: Seq<Seq<char>>, path: Seq<char>, mode: PathComparisonMode)
    ensures
        best_root(candidates, path, mode) matches Some(b) ==> 0 <= b < candidates.len() && root_matches(
            candidates[b],
            path,
            mode,
        ),
    decreases candidates.len(),
{
    if candidates.len() > 0 {
        lemma_best_root_bounds(candidates.drop_last(), path, mode);
    }
}

/// A plan's roots, exclusions and patterns, as plain texts: each configured root
/// with the index of the root it spells, the excluded directories, and the
/// exclude globs.
#[derive(Debug, Clone)]
pub struct IndexPathRules {
    pub roots: Vec<String>,
    pub root_candidates: Vec<(String, usize)>,
    pub exclude_dirs: Vec<String>,
    pub exclude_globs: Vec<String>,
    pub respect_project_ignores: bool,
}

/// The candidate roots' texts.
pub open spec fn candidate_texts(candidates: Seq<(String, usize)>) -> Seq<Seq<char>> {
    Seq::new(candidates.len(), |i: int| candidates[i].0@)
}

/// What `candidate` is matched against the globs as: its text below the
/// configured root, when not empty, else itself.
pub open spec fn pattern_candidate(candidate: Seq<char>, boundary: Option<Seq<char>>) -> Seq<char> {
    match boundary {
        Some(root) => match std_path_strip_prefix(candidate, root) {
            Some(rest) => if rest.len() > 0 {
                rest
            } else {
                candidate
            },
            None => candidate,
        },
        None => candidate,
    }
}

/// `candidate` is excluded by itself: forced, an excluded directory, or matched
/// by the globs.
pub open spec fn candidate_excluded(
    rules: IndexPathRules,
    candidate: Seq<char>,
    boundary: Option<Seq<char>>,
) -> bool {
    ||| is_forced_excluded_spec(candidate)
    ||| exists|i: int| 0 <= i < rules.exclude_dirs@.len() && same_path(#[trigger] rules.exclude_dirs@[i]@, candidate)
    ||| pattern_excluded(strings_view(rules.exclude_globs@), pattern_candidate(candidate, boundary))
}

/// Some ancestor of `path` (itself first), short of the configured root, is
/// excluded.
pub open spec fn excluded_from(
    rules: IndexPathRules,
    path: Seq<char>,
    boundary: Option<Seq<char>>,
    mode: PathComparisonMode,
) -> bool
    decreases path.len(),
{
    if boundary matches Some(root) && path_key_spec(path, mode) == path_key_spec(root, mode) {
        false
    } else {
        candidate_excluded(rules, path, boundary) || match std_path_parent(path) {
            Some(p) => if p.len() < path.len() {
                excluded_from(rules, p, boundary, mode)
            } else {
                false
            },
            None => false,
        }
    }
}

/// The configured root at or above `path`, as text.
pub open spec fn boundary_of(rules: IndexPathRules, path: Seq<char>, mode: PathComparisonMode) -> Option<Seq<char>> {
    match best_root(candidate_texts(rules.root_candidates@), path, mode) {
        Some(b) => Some(rules.root_candidates@[b].0@),
        None => None,
    }
}

/// `path` is forced or user excluded under the rules.
pub open spec fn forced_or_user_excluded_spec(rules: IndexPathRules, path: Seq<char>, mode: PathComparisonMode) -> bool {
    excluded_from(rules, path, boundary_of(rules, path, mode), mode)
}

impl IndexPathRules {
    /// The position among the candidates of the deepest configured root at or
    /// above `path`.
    pub fn configured_root_match_for_mode(&self, path: &str, mode: PathComparisonMode) -> (r: Option<usize>)
        ensures
            match r {
                Some(i) => best_root(candidate_texts(self.root_candidates@), path@, mode) == Some(i as int),
                None => best_root(candidate_texts(self.root_candidates@), path@, mode) is None,
            },
    {
        let ghost texts = candidate_texts(self.root_candidates@);
        let mut best: Option<usize> = None;
        let mut best_runs: usize = 0;
        let mut i: usize = 0;
        proof {
            assert(texts.take(0) =~= Seq::<Seq<char>>::empty());
        }
        while i < self.root_candidates.len()
            invariant
                i <= self.root_candidates@.len(),
                texts == candidate_texts(self.root_candidates@),
                match best {
                    Some(b) => best_root(texts.take(i as int), path@, mode) == Some(b as int) && b < i
                        && best_runs == component_runs(path_key_spec(texts[b as int], mode)),
                    None => best_root(texts.take(i as int), path@, mode) is None,
                },
            decreases self.root_candidates@.len() - i,
        {
            let candidate = self.root_candidates[i].0.as_str();
            proof {
                let t = texts.take(i + 1);
                assert(t.drop_last() =~= texts.take(i as int));
                assert(t[i as int] == texts[i as int]);
                if let Some(b) = best {
                    assert(t[b as int] == texts[b as int]);
                }
            }
            if path_is_same_or_descendant_for_mode(candidate, path, mode) {
                let key = normalize_path_key_for_mode(candidate, mode);
                let runs = count_component_runs(chars_of(key.as_str()).as_slice());
                match best {
                    Some(_) => {
                        if runs >= best_runs {
                            best = Some(i);
                            best_runs = runs;
                        }
                    },
                    None => {
                        best = Some(i);
                        best_runs = runs;
                    },
                }
            }
            i = i + 1;
        }
        proof {
            assert(texts.take(texts.len() as int) =~= texts);
        }
        best
    }

    /// Whether an ancestor of `path` (itself first), short of the configured root
    /// at or above it, is forced excluded, an excluded directory, or matched by
    /// the globs (below that root, by its relative text).
    pub fn is_forced_or_user_excluded_for_mode(&self, path: &str, mode: PathComparisonMode) -> (r: bool)
        ensures
            r == forced_or_user_excluded_spec(*self, path@, mode),
    {
        let boundary: Option<String> = match self.configured_root_match_for_mode(path, mode) {
            Some(b) => {
                proof {
                    lemma_best_root_bounds(candidate_texts(self.root_candidates@), path@, mode);
                }
                Some(self.root_candidates[b].0.clone())
            },
            None => None,
        };
        let ghost bview: Option<Seq<char>> = match &boundary {
            Some(s) => Some(s@),
            None => None,
        };
        assert(bview == boundary_of(*self, path@, mode));
        let root_key: Option<String> = match &boundary {
            Some(root) => Some(normalize_path_key_for_mode(root.as_str(), mode)),
            None => None,
        };
        let mut current: String = path.to_string();
        loop
            invariant
                bview == boundary_of(*self, path@, mode),
                bview == (match boundary {
                    Some(s) => Some(s@),
                    None => None::<Seq<char>>,
                }),
                match root_key {
                    Some(k) => bview matches Some(root) && k@ == path_key_spec(root, mode),
                    None => bview is None,
                },
                excluded_from(*self, current@, bview, mode) == excluded_from(*self, path@, bview, mode),
            decreases current@.len(),
        {
            if let Some(k) = &root_key {
                let ck = normalize_path_key_for_mode(current.as_str(), mode);
                if ck == *k {
                    return false;
                }
            }
            if self.candidate_hit(current.as_str(), &boundary) {
                return true;
            }
            match path_parent(current.as_str()) {
                Some(p) => {
                    current = p;
                },
                None => {
                    return false;
                },
            }
        }
    }

    fn candidate_hit(&self, candidate: &str, boundary: &Option<String>) -> (r: bool)
        ensures
            r == candidate_excluded(
                *self,
                candidate@,
                match boundary {
                    Some(s) => Some(s@),
                    None => None,
                },
            ),
    {
        if is_forced_excluded(candidate) {
            return true;
        }
        let comps = components_of(candidate);
        let mut i: usize = 0;
        while i < self.exclude_dirs.len()
            invariant
                i <= self.exclude_dirs@.len(),
                comps_view(comps@) == path_components(candidate@),
                forall|j: int| 0 <= j < i ==> !same_path(#[trigger] self.exclude_dirs@[j]@, candidate@),
            decreases self.exclude_dirs@.len() - i,
        {
            let d = components_of(self.exclude_dirs[i].as_str());
            if comps_equal(d.as_slice(), comps.as_slice()) {
                return true;
            }
            i = i + 1;
        }
        let target: String = match boundary {
            Some(root) => match path_strip_prefix(candidate, root.as_str()) {
                Some(rest) => if rest.as_str().is_empty() {
                    candidate.to_string()
                } else {
                    rest
                },
                None => candidate.to_string(),
            },
            None => candidate.to_string(),
        };
        patterns_exclude(self.exclude_globs.as_slice(), target.as_str())
    }

    /// Whether `path` is forced or user excluded, or lies inside an application
    /// bundle.
    pub fn is_excluded_for_mode(&self, path: &str, mode: PathComparisonMode) -> (r: bool)
        ensures
            r == (forced_or_user_excluded_spec(*self, path@, mode) || inside_app_bundle_spec(path@)),
    {
        self.is_forced_or_user_excluded_for_mode(path, mode) || is_inside_app_bundle(path)
    }

    /// `is_forced_or_user_excluded_for_mode` with the platform's comparison.
    pub fn is_forced_or_user_excluded(&self, path: &str) -> (r: bool)
        ensures
            exists|mode: PathComparisonMode| r == forced_or_user_excluded_spec(*self, path@, mode),
    {
        self.is_forced_or_user_excluded_for_mode(path, PathComparisonMode::native())
    }

    /// `is_excluded_for_mode` with the platform's comparison.
    pub fn is_excluded(&self, path: &str) -> (r: bool)
        ensures
            exists|mode: PathComparisonMode| r == (forced_or_user_excluded_spec(*self, path@, mode)
                || inside_app_bundle_spec(path@)),
    {
        self.is_excluded_for_mode(path, PathComparisonMode::native())
    }
}

// ---------------------------------------------------------------------------
// Resumable scanning: the directory frontier and its bookkeeping
// ---------------------------------------------------------------------------

/// Path `i` is the first of `paths` with its key.
pub open spec fn first_with_key(paths: Seq<String>, i: int, mode: PathComparisonMode) -> bool {
    &&& 0 <= i < paths.len()
    &&& forall|j: int| 0 <= j < i ==> path_key_spec((#[trigger] paths[j])@, mode) != path_key_spec(paths[i]@, mode)
}

/// `p` is the text of the first of `paths` with its key.
pub open spec fn is_first_path(paths: Seq<String>, p: Seq<char>, mode: PathComparisonMode) -> bool {
    exists|i: int| first_with_key(paths, i, mode) && #[trigger] paths[i]@ == p
}

/// The keys of a list of paths.
pub open spec fn path_keys(paths: Seq<String>, mode: PathComparisonMode) -> Seq<Seq<char>> {
    Seq::new(paths.len(), |k: int| path_key_spec(paths[k]@, mode))
}

/// The discovered directories in increasing key order, the first of each key.
pub fn discovered_in_key_order(paths: &[String], mode: PathComparisonMode) -> (r: Vec<String>)
    ensures
        ascending(path_keys(r@, mode)),
        forall|k: int| 0 <= k < r@.len() ==> is_first_path(paths@, (#[trigger] r@[k])@, mode),
        forall|i: int| #[trigger] first_with_key(paths@, i, mode) ==> exists|k: int| 0 <= k < r@.len() && r@[k]@ == paths@[i]@,
{
    let mut firsts: StrMap<String> = StrMap::new();
    let mut i: usize = 0;
    while i < paths.len()
        invariant
            i <= paths@.len(),
            forall|k: Seq<char>| #[trigger] firsts.as_map().contains_key(k) ==> exists|j: int|
                first_with_key(paths@, j, mode) && j < i && path_key_spec(paths@[j]@, mode) == k && firsts.as_map()[k]@
                    == paths@[j]@,
            forall|j: int| 0 <= j < i ==> firsts.as_map().contains_key(path_key_spec((#[trigger] paths@[j])@, mode)),
        decreases paths@.len() - i,
    {
        let key = normalize_path_key_for_mode(paths[i].as_str(), mode);
        if !firsts.contains_key(key.as_str()) {
            proof {
                assert forall|j: int| 0 <= j < i implies path_key_spec((#[trigger] paths@[j])@, mode) != path_key_spec(
                    paths@[i as int]@,
                    mode,
                ) by {}
                assert(first_with_key(paths@, i as int, mode));
            }
            firsts.insert(key, paths[i].clone());
        }
        i = i + 1;
    }
    let pairs = firsts.pairs();
    let ghost ks = firsts.keys();
    let mut out: Vec<String> = Vec::new();
    let mut k: usize = 0;
    while k < pairs.len()
        invariant
            k <= pairs@.len(),
            pairs@.len() == ks.len(),
            ks == firsts.keys(),
            ascending(ks),
            firsts.vals().len() == ks.len(),
            forall|t: int| 0 <= t < pairs@.len() ==> (#[trigger] pairs@[t]).0@ == ks[t] && pairs@[t].1 == firsts.vals()[t],
            out@.len() == k,
            forall|t: int| 0 <= t < k ==> (#[trigger] out@[t])@ == firsts.vals()[t]@,
        decreases pairs@.len() - k,
    {
        out.push(pairs[k].1.clone());
        k = k + 1;
    }
    proof {
        assert forall|t: int| 0 <= t < ks.len() implies firsts.as_map().contains_key(#[trigger] ks[t]) && firsts.as_map()[ks[t]]
            == firsts.vals()[t] by {
            lemma_index_of_ascending(ks, t);
            assert(ks.contains(ks[t]));
        }
        assert forall|t: int| 0 <= t < out@.len() implies path_key_spec((#[trigger] out@[t])@, mode) == ks[t] by {
            lemma_index_of_ascending(ks, t);
            assert(ks.contains(ks[t]));
            assert(firsts.as_map().contains_key(ks[t]));
            let j = choose|j: int|
                first_with_key(paths@, j, mode) && j < i && path_key_spec(paths@[j]@, mode) == ks[t] && firsts.as_map()[ks[t]]@
                    == paths@[j]@;
        }
        assert(path_keys(out@, mode) =~= ks);
        assert forall|t: int| 0 <= t < out@.len() implies is_first_path(paths@, (#[trigger] out@[t])@, mode) by {
            lemma_index_of_ascending(ks, t);
            assert(ks.contains(ks[t]));
            assert(firsts.as_map().contains_key(ks[t]));
            assert(firsts.as_map()[ks[t]] == firsts.vals()[t]);
            let j = choose|j: int|
                first_with_key(paths@, j, mode) && j < i && path_key_spec(paths@[j]@, mode) == ks[t] && firsts.as_map()[ks[t]]@
                    == paths@[j]@;
            assert(out@[t]@ == paths@[j]@);
        }
        assert forall|j: int| #[trigger] first_with_key(paths@, j, mode) implies exists|t: int| 0 <= t < out@.len() && out@[t]@ == paths@[j]@ by {
            let key = path_key_spec(paths@[j]@, mode);
            assert(firsts.as_map().contains_key(key));
            let t = ks.index_of(key);
            assert(0 <= t < ks.len() && ks[t] == key);
            let j2 = choose|j2: int|
                first_with_key(paths@, j2, mode) && j2 < i && path_key_spec(paths@[j2]@, mode) == key && firsts.as_map()[key]@
                    == paths@[j2]@;
            if j2 < j {
                assert(path_key_spec(paths@[j2]@, mode) != path_key_spec(paths@[j]@, mode));
            } else if j < j2 {
                assert(path_key_spec(paths@[j]@, mode) != path_key_spec(paths@[j2]@, mode));
            }
            assert(out@[t]@ == paths@[j]@);
        }
    }
    out
}

/// The directories still to scan, in order, and the keys of those queued.
pub struct ScanFrontier {
    queue: Vec<String>,
    head: usize,
    queued: StrSet,
    mode: PathComparisonMode,
}

impl ScanFrontier {
    /// The directories still to scan, in order.
    pub closed spec fn pending(&self) -> Seq<Seq<char>> {
        strings_view(self.queue@).skip(self.head as int)
    }

    /// The keys of the directories queued and not yet taken.
    pub closed spec fn queued_keys(&self) -> Set<Seq<char>> {
        self.queued.members()
    }

    pub closed spec fn key_mode(&self) -> PathComparisonMode {
        self.mode
    }

    /// The taken directories are a prefix of the queue.
    pub closed spec fn wf(&self) -> bool {
        self.head <= self.queue@.len()
    }

    /// A frontier of the directories a scan left pending, keys taken by `mode`.
    pub fn new(pending: Vec<String>, mode: PathComparisonMode) -> (r: Self)
        ensures
            r.pending() == strings_view(pending@),
            r.queued_keys() == Set::new(
                |k: Seq<char>| exists|i: int| 0 <= i < pending@.len() && path_key_spec((#[trigger] pending@[i])@, mode) == k,
            ),
            r.key_mode() == mode,
            r.wf(),
    {
        let mut queued = StrSet::new();
        let mut i: usize = 0;
        while i < pending.len()
            invariant
                i <= pending@.len(),
                queued.members() == Set::new(
                    |k: Seq<char>| exists|j: int| 0 <= j < i && path_key_spec((#[trigger] pending@[j])@, mode) == k,
                ),
            decreases pending@.len() - i,
        {
            let key = normalize_path_key_for_mode(pending[i].as_str(), mode);
            let ghost before = queued.members();
            queued.insert(key);
            proof {
                assert(queued.members() =~= Set::new(
                    |k: Seq<char>| exists|j: int| 0 <= j < i + 1 && path_key_spec((#[trigger] pending@[j])@, mode) == k,
                )) by {
                    assert forall|k: Seq<char>| queued.members().contains(k) implies exists|j: int|
                        0 <= j < i + 1 && path_key_spec((#[trigger] pending@[j])@, mode) == k by {
                        if k == path_key_spec(pending@[i as int]@, mode) {
                            assert(path_key_spec(pending@[i as int]@, mode) == k);
                        } else {
                            assert(before.contains(k));
                        }
                    }
                }
            }
            i = i + 1;
        }
        let r = ScanFrontier { queue: pending, head: 0, queued, mode };
        assert(r.pending() =~= strings_view(r.queue@));
        r
    }

    /// Takes the next directory and forgets its key.
    pub fn pop(&mut self) -> (r: Option<String>)
        requires
            old(self).wf(),
        ensures
            final(self).wf(),
            final(self).key_mode() == old(self).key_mode(),
            match r {
                Some(d) => old(self).pending().len() > 0 && d@ == old(self).pending()[0] && final(self).pending()
                    == old(self).pending().drop_first() && final(self).queued_keys() == old(self).queued_keys().remove(
                    path_key_spec(d@, old(self).key_mode()),
                ),
                None => old(self).pending().len() == 0 && *final(self) == *old(self),
            },
    {
        if self.head >= self.queue.len() {
            return None;
        }
        let d = self.queue[self.head].clone();
        let key = normalize_path_key_for_mode(d.as_str(), self.mode);
        self.queued.remove(key.as_str());
        let ghost before = self.pending();
        self.head = self.head + 1;
        assert(self.pending() =~= before.drop_first());
        Some(d)
    }

    /// Queues a discovered directory unless one with its key is queued; true
    /// when it was queued.
    pub fn enqueue(&mut self, directory: String) -> (r: bool)
        requires
            old(self).wf(),
        ensures
            final(self).wf(),
            final(self).key_mode() == old(self).key_mode(),
            r == !old(self).queued_keys().contains(path_key_spec(directory@, old(self).key_mode())),
            final(self).queued_keys() == old(self).queued_keys().insert(path_key_spec(directory@, old(self).key_mode())),
            final(self).pending() == (if r {
                old(self).pending().push(directory@)
            } else {
                old(self).pending()
            }),
    {
        let key = normalize_path_key_for_mode(directory.as_str(), self.mode);
        if !self.queued.insert(key) {
            return false;
        }
        let ghost before = self.pending();
        self.queue.push(directory);
        proof {
            assert(strings_view(self.queue@) =~= strings_view(old(self).queue@).push(directory@));
            assert(self.pending() =~= before.push(directory@));
        }
        true
    }
}

/// What one entry of a scanned directory came to.
#[derive(Debug, Clone, Copy, PartialEq, Eq, Structural)]
pub enum EntryTally {
    /// The path rules exclude it.
    Excluded,
    /// It was scanned but yields no indexed entry.
    Unindexable,
    /// It was scanned and indexed.
    Accepted,
}

/// `n + 1`, saturating.
pub open spec fn bump(n: usize) -> usize {
    if n == usize::MAX {
        n
    } else {
        (n + 1) as usize
    }
}

/// The statistics after counting one entry: an excluded one as skipped, an
/// unindexable one as scanned and skipped, an accepted one as scanned and
/// accepted, each saturating.
pub open spec fn tallied(stats: IndexScanStats, outcome: EntryTally) -> IndexScanStats {
    match outcome {
        EntryTally::Excluded => IndexScanStats { skipped: bump(stats.skipped), ..stats },
        EntryTally::Unindexable => IndexScanStats { scanned: bump(stats.scanned), skipped: bump(stats.skipped), ..stats },
        EntryTally::Accepted => IndexScanStats { scanned: bump(stats.scanned), accepted: bump(stats.accepted), ..stats },
    }
}

/// Counts one entry in both the scan's and the directory's statistics.
pub fn tally_entry(total: &mut IndexScanStats, directory: &mut IndexScanStats, outcome: EntryTally)
    ensures
        *final(total) == tallied(*old(total), outcome),
        *final(directory) == tallied(*old(directory), outcome),
{
    match outcome {
        EntryTally::Excluded => {
            total.skipped = total.skipped.saturating_add(1);
            directory.skipped = directory.skipped.saturating_add(1);
        },
        EntryTally::Unindexable => {
            total.scanned = total.scanned.saturating_add(1);
            directory.scanned = directory.scanned.saturating_add(1);
            total.skipped = total.skipped.saturating_add(1);
            directory.skipped = directory.skipped.saturating_add(1);
        },
        EntryTally::Accepted => {
            total.scanned = total.scanned.saturating_add(1);
            directory.scanned = directory.scanned.saturating_add(1);
            total.accepted = total.accepted.saturating_add(1);
            directory.accepted = directory.accepted.saturating_add(1);
        },
    }
}

/// Records a failed directory: one more failure in both statistics (saturating),
/// and the failure as an event and in the report's list.
pub fn record_directory_failure(report: &mut IndexReport, directory: &mut IndexScanStats, failure: IndexFailure)
    ensures
        final(report).scan_stats == (IndexScanStats { failures: bump(old(report).scan_stats.failures), ..old(report).scan_stats }),
        *final(directory) == (IndexScanStats { failures: bump(old(directory).failures), ..*old(directory) }),
        final(report).scan_events@ == old(report).scan_events@.push(ScanEvent::Failure(failure)),
        final(report).failures@ == old(report).failures@.push(failure),
        final(report).entries == old(report).entries,
{
    report.scan_stats.failures = report.scan_stats.failures.saturating_add(1);
    directory.failures = directory.failures.saturating_add(1);
    let copy = IndexFailure { root: failure.root.clone(), message: failure.message.clone() };
    report.scan_events.push(ScanEvent::Failure(copy));
    report.failures.push(failure);
}

/// The counters an entry's outcome raises have room for one more.
pub open spec fn entry_countable(stats: IndexScanStats, outcome: EntryTally) -> bool {
    match outcome {
        EntryTally::Excluded => stats.skipped < usize::MAX,
        EntryTally::Unindexable => stats.scanned < usize::MAX && stats.skipped < usize::MAX,
        EntryTally::Accepted => stats.scanned < usize::MAX && stats.accepted < usize::MAX,
    }
}

/// Counts one entry as a scan without saturation does: the counters it raises
/// go up by one.
pub fn count_entry(stats: &mut IndexScanStats, outcome: EntryTally)
    requires
        entry_countable(*old(stats), outcome),
    ensures
        *final(stats) == tallied(*old(stats), outcome),
{
    match outcome {
        EntryTally::Excluded => {
            stats.skipped = stats.skipped + 1;
        },
        EntryTally::Unindexable => {
            stats.scanned = stats.scanned + 1;
            stats.skipped = stats.skipped + 1;
        },
        EntryTally::Accepted => {
            stats.scanned = stats.scanned + 1;
            stats.accepted = stats.accepted + 1;
        },
    }
}

} // verus!
