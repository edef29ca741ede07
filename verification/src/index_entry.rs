//! Indexed entries, scan reports and the index lifecycle state machine.

use vstd::prelude::*;
use crate::text::{
    chars_eq, chars_of, has_prefix, owned, replace_char, replace_chars, starts_with_chars, str_eq,
    string_from_chars, trim_end_char, trim_end_matches, unicode_lower, unicode_lowercase,
};

verus! {

broadcast use vstd::string::group_string_axioms;

// ---------------------------------------------------------------------------
// Path keys
// ---------------------------------------------------------------------------

/// How two path spellings are compared.
#[derive(Debug, Clone, Copy, PartialEq, Eq, Structural)]
pub enum PathComparisonMode {
    Native,
    Windows,
}

/// The platform's main path separator (`std::path::MAIN_SEPARATOR`).
#[verifier::external_body]
pub(crate) fn main_separator() -> (c: char)
    ensures
        c == '/' || c == '\\',
{
    std::path::MAIN_SEPARATOR
}

impl PathComparisonMode {
    /// Windows comparison for a backslash separator, native otherwise.
    pub fn for_separator(sep: char) -> (r: Self)
        ensures
            r == (if sep == '\\' {
                PathComparisonMode::Windows
            } else {
                PathComparisonMode::Native
            }),
    {
        if sep == '\\' {
            PathComparisonMode::Windows
        } else {
            PathComparisonMode::Native
        }
    }

    /// The mode `for_separator` gives for the platform's main separator, which
    /// is a build-dependent value that no clause names.
    pub fn native() -> (r: Self) {
        PathComparisonMode::for_separator(main_separator())
    }
}

/// The comparison key of a path spelling: backslashes become slashes, trailing
/// slashes are dropped (a lone `/` stays), and Windows keys are lower-cased.
pub open spec fn path_key_spec(path: Seq<char>, mode: PathComparisonMode) -> Seq<char> {
    let slashed = replace_char(path, '\\', '/');
    let trimmed = if slashed.len() > 1 { trim_end_char(slashed, '/') } else { slashed };
    if mode == PathComparisonMode::Windows {
        unicode_lower(trimmed)
    } else {
        trimmed
    }
}

/// `root` and `candidate` are the same path, or `candidate` lies below `root`.
pub open spec fn same_or_descendant_key(root: Seq<char>, candidate: Seq<char>) -> bool {
    ||| candidate == root
    ||| (root == seq!['/'] && has_prefix(candidate, seq!['/']))
    ||| (has_prefix(candidate, root) && candidate.len() > root.len() && candidate[root.len() as int] == '/')
}

pub fn normalize_path_text_key_for_mode(path: &str, mode: PathComparisonMode) -> (r: String)
    ensures
        r@ == path_key_spec(path@, mode),
{
    let chars = chars_of(path);
    let slashed = replace_chars(chars.as_slice(), '\\', '/');
    let trimmed = if slashed.len() > 1 {
        trim_end_matches(slashed.as_slice(), '/')
    } else {
        slashed
    };
    let text = string_from_chars(trimmed.as_slice());
    match mode {
        PathComparisonMode::Windows => unicode_lowercase(text.as_str()),
        PathComparisonMode::Native => text,
    }
}

/// The comparison key of `path` for this platform.
pub fn normalize_path_text_key(path: &str) -> (r: String)
    ensures
        r@ == path_key_spec(path@, PathComparisonMode::Native) || r@ == path_key_spec(
            path@,
            PathComparisonMode::Windows,
        ),
{
    normalize_path_text_key_for_mode(path, PathComparisonMode::native())
}

/// The comparison key of a path given by its text.
pub fn normalize_path_key(path: &str) -> (r: String)
    ensures
        r@ == path_key_spec(path@, PathComparisonMode::Native) || r@ == path_key_spec(
            path@,
            PathComparisonMode::Windows,
        ),
{
    normalize_path_text_key(path)
}

pub fn normalize_path_key_for_mode(path: &str, mode: PathComparisonMode) -> (r: String)
    ensures
        r@ == path_key_spec(path@, mode),
{
    normalize_path_text_key_for_mode(path, mode)
}

/// Whether `candidate` is `root` or lies below it, compared by path keys.
pub fn path_is_same_or_descendant_for_mode(
    root: &str,
    candidate: &str,
    mode: PathComparisonMode,
) -> (r: bool)
    ensures
        r == same_or_descendant_key(path_key_spec(root@, mode), path_key_spec(candidate@, mode)),
{
    let root_key = normalize_path_key_for_mode(root, mode);
    let candidate_key = normalize_path_key_for_mode(candidate, mode);
    let rk = chars_of(root_key.as_str());
    let ck = chars_of(candidate_key.as_str());
    if chars_eq(ck.as_slice(), rk.as_slice()) {
        return true;
    }
    let slash = vec!['/'];
    if rk.len() == 1 && rk[0] == '/' && ck.len() >= 1 && ck[0] == '/' {
        assert(rk@ =~= seq!['/']);
        assert(ck@.subrange(0, 1) =~= seq!['/']);
        return true;
    }
    proof {
        if rk@ == seq!['/'] && has_prefix(ck@, seq!['/']) {
            assert(ck@.subrange(0, 1)[0] == '/');
        }
    }
    let _ = slash;
    starts_with_chars(ck.as_slice(), rk.as_slice()) && ck.len() > rk.len() && ck[rk.len()] == '/'
}

// ---------------------------------------------------------------------------
// Entries
// ---------------------------------------------------------------------------

#[derive(Debug, Clone, Copy, PartialEq, Eq, Structural)]
pub enum IndexedEntryKind {
    Application,
    File,
    Directory,
}

#[derive(Debug, Clone, Copy, PartialEq, Eq, Structural)]
pub enum ContentIndexState {
    NotIndexed,
    Indexed,
    SkippedTooLarge,
    SkippedBinary,
    ReadFailed,
}

impl Default for ContentIndexState {
    fn default() -> (r: Self)
        ensures
            r == ContentIndexState::NotIndexed,
    {
        ContentIndexState::NotIndexed
    }
}

/// One file, directory or application known to the index.
#[derive(Debug, Clone, PartialEq, Eq)]
pub struct IndexedEntry {
    pub path: String,
    pub name: String,
    pub kind: IndexedEntryKind,
    pub parent: String,
    pub extension: Option<String>,
    pub depth: usize,
    pub root: String,
    pub modified_ms: Option<i64>,
    pub size_bytes: Option<u64>,
    pub search_text: String,
    pub content_index_state: ContentIndexState,
}

/// The lower-cased `"{name} {path}"` text that ordinary terms are matched against.
pub open spec fn search_text_spec(name: Seq<char>, path: Seq<char>) -> Seq<char> {
    unicode_lower(name + seq![' '] + path)
}

/// `format!("{name} {path}").to_lowercase()`.
pub fn build_search_text(name: &str, path: &str) -> (r: String)
    ensures
        r@ == search_text_spec(name@, path@),
{
    let mut joined = chars_of(name);
    joined.push(' ');
    let mut p = chars_of(path);
    joined.append(&mut p);
    let text = string_from_chars(joined.as_slice());
    assert(text@ =~= name@ + seq![' '] + path@);
    unicode_lowercase(text.as_str())
}

/// A copy of an optional string whose view is the original's.
pub fn clone_opt_string(s: &Option<String>) -> (r: Option<String>)
    ensures
        r == *s,
{
    match s {
        Some(t) => Some(t.clone()),
        None => None,
    }
}

/// The parent `std::path::Path::parent` gives a path, as text.
pub uninterp spec fn std_path_parent(p: Seq<char>) -> Option<Seq<char>>;

/// `Path::parent`: the path without its last component (trailing separators and
/// `.` pieces trimmed), none for a root or an empty path; the contract names the
/// result and says it is shorter than the path.
#[verifier::external_body]
pub(crate) fn path_parent(p: &str) -> (r: Option<String>)
    ensures
        match r {
            Some(s) => std_path_parent(p@) == Some(s@) && s@.len() < p@.len(),
            None => std_path_parent(p@) is None,
        },
{
    std::path::Path::new(p).parent().map(|q| q.to_string_lossy().into_owned())
}

/// The name of an entry at `path`: its last named component, else the whole path.
pub open spec fn entry_name_spec(path: Seq<char>) -> Seq<char> {
    match crate::content_index::last_name(path) {
        Some(n) => n,
        None => path,
    }
}

/// The extension of an entry at `path`, ASCII lower-cased.
pub open spec fn entry_extension_of_path(path: Seq<char>) -> Option<Seq<char>> {
    match crate::content_index::last_name(path) {
        Some(n) => match crate::content_index::name_ext(n) {
            Some(e) => Some(crate::text::lower(e)),
            None => None,
        },
        None => None,
    }
}

/// The depth of `path` below `root`: its components past the root's when it lies
/// under the root, else all its components.
pub open spec fn entry_depth_spec(path: Seq<char>, root: Seq<char>) -> int {
    if crate::paths::path_starts_with(path, root) {
        crate::paths::path_components(path).len() - crate::paths::path_components(root).len()
    } else {
        crate::paths::path_components(path).len() as int
    }
}

impl IndexedEntry {
    /// The entry for `path` under `root` with the metadata read from disk: its
    /// name, parent and extension come from the path, its depth from the root.
    pub fn from_path_metadata(
        path: &str,
        root: &str,
        kind: IndexedEntryKind,
        modified_ms: Option<i64>,
        size_bytes: Option<u64>,
    ) -> (r: Self)
        ensures
            r.path@ == path@,
            r.name@ == entry_name_spec(path@),
            r.kind == kind,
            r.parent@ == (match std_path_parent(path@) {
                Some(q) => q,
                None => Seq::<char>::empty(),
            }),
            match r.extension {
                Some(e) => entry_extension_of_path(path@) == Some(e@),
                None => entry_extension_of_path(path@) is None,
            },
            r.depth == entry_depth_spec(path@, root@),
            r.root@ == root@,
            r.modified_ms == modified_ms,
            r.size_bytes == size_bytes,
            r.search_text@ == search_text_spec(entry_name_spec(path@), path@),
            r.content_index_state == ContentIndexState::NotIndexed,
    {
        let name = match crate::content_index::last_name_of(path) {
            Some(n) => string_from_chars(n.as_slice()),
            None => owned(path),
        };
        let extension = match crate::content_index::last_name_of(path) {
            Some(n) => match crate::content_index::name_ext_of(n.as_slice()) {
                Some(e) => {
                    let l = crate::text::lower_chars(e.as_slice());
                    Some(string_from_chars(l.as_slice()))
                },
                None => None,
            },
            None => None,
        };
        let parent = match path_parent(path) {
            Some(q) => q,
            None => String::new(),
        };
        let pc = crate::paths::components_of(path);
        let rc = crate::paths::components_of(root);
        let depth = if crate::paths::comps_prefix(pc.as_slice(), rc.as_slice()) {
            pc.len() - rc.len()
        } else {
            pc.len()
        };
        let search_text = build_search_text(name.as_str(), path);
        IndexedEntry {
            path: owned(path),
            name,
            kind,
            parent,
            extension,
            depth,
            root: owned(root),
            modified_ms,
            size_bytes,
            search_text,
            content_index_state: ContentIndexState::NotIndexed,
        }
    }

    /// An entry with only path, name and kind known; the search text is derived.
    pub fn legacy(path: &str, name: &str, kind: IndexedEntryKind) -> (r: Self)
        ensures
            r.path@ == path@,
            r.name@ == name@,
            r.kind == kind,
            r.parent@ == Seq::<char>::empty(),
            r.extension.is_none(),
            r.depth == 0,
            r.root@ == Seq::<char>::empty(),
            r.modified_ms.is_none(),
            r.size_bytes.is_none(),
            r.search_text@ == search_text_spec(name@, path@),
            r.content_index_state == ContentIndexState::NotIndexed,
    {
        IndexedEntry {
            search_text: build_search_text(name, path),
            path: owned(path),
            name: owned(name),
            kind,
            parent: String::new(),
            extension: None,
            depth: 0,
            root: String::new(),
            modified_ms: None,
            size_bytes: None,
            content_index_state: ContentIndexState::NotIndexed,
        }
    }

    /// A field-by-field copy.
    pub fn duplicate(&self) -> (r: Self)
        ensures
            r == *self,
    {
        IndexedEntry {
            path: self.path.clone(),
            name: self.name.clone(),
            kind: self.kind,
            parent: self.parent.clone(),
            extension: clone_opt_string(&self.extension),
            depth: self.depth,
            root: self.root.clone(),
            modified_ms: self.modified_ms,
            size_bytes: self.size_bytes,
            search_text: self.search_text.clone(),
            content_index_state: self.content_index_state,
        }
    }
}

#[derive(Debug, Clone, PartialEq, Eq)]
pub struct IndexFailure {
    pub root: String,
    pub message: String,
}

#[derive(Debug, Clone, Copy, PartialEq, Eq, Default, Structural)]
pub struct IndexScanStats {
    pub scanned: usize,
    pub accepted: usize,
    pub skipped: usize,
    pub failures: usize,
}

#[derive(Debug, Clone, PartialEq, Eq)]
pub enum ScanEvent {
    RootStarted { root: String, stage: Option<String> },
    RootFinished { root: String, stage: Option<String>, stats: IndexScanStats },
    EntryAccepted { path: String, kind: IndexedEntryKind },
    EntrySkipped { path: String, reason: String },
    Failure(IndexFailure),
}

#[derive(Debug, Clone, PartialEq, Eq)]
pub struct IndexReport {
    pub entries: Vec<IndexedEntry>,
    pub failures: Vec<IndexFailure>,
    pub scan_stats: IndexScanStats,
    pub scan_events: Vec<ScanEvent>,
}

impl Default for IndexReport {
    fn default() -> (r: Self)
        ensures
            r.entries@.len() == 0,
            r.failures@.len() == 0,
            r.scan_stats == (IndexScanStats { scanned: 0, accepted: 0, skipped: 0, failures: 0 }),
            r.scan_events@.len() == 0,
    {
        IndexReport {
            entries: Vec::new(),
            failures: Vec::new(),
            scan_stats: IndexScanStats { scanned: 0, accepted: 0, skipped: 0, failures: 0 },
            scan_events: Vec::new(),
        }
    }
}

#[derive(Debug, Clone, Copy, PartialEq, Eq, Structural)]
pub enum IndexStatusKind {
    Unbuilt,
    Building,
    Ready,
    Refreshing,
    Failed,
}

#[derive(Debug, Clone, Copy, PartialEq, Eq, Structural)]
pub enum IndexAvailability {
    Unavailable,
    QuickAvailable,
    Completing,
    ContentIndexing,
    Complete,
}

/// The status the launcher shows for the file index.
#[derive(Debug, Clone, PartialEq, Eq)]
pub struct IndexStatus {
    pub kind: IndexStatusKind,
    pub availability: IndexAvailability,
    pub entry_count: usize,
    pub message: Option<String>,
    pub generation: u64,
    pub completed_at_ms: Option<i64>,
    pub stage: String,
    pub current_root: Option<String>,
    pub scanned: usize,
    pub accepted: usize,
    pub skipped: usize,
    pub failures: usize,
}

/// Availability during a refresh: nothing searchable yet, the background stages,
/// content indexing, or the quick first pass.
pub open spec fn availability_for_stage_spec(stage: Seq<char>, entry_count: usize) -> IndexAvailability {
    if entry_count == 0 {
        IndexAvailability::Unavailable
    } else if stage == "configured-roots"@ || stage == "remaining-drives"@ {
        IndexAvailability::Completing
    } else if stage == "content-index"@ {
        IndexAvailability::ContentIndexing
    } else {
        IndexAvailability::QuickAvailable
    }
}

fn availability_for_progress_stage(stage: &str, entry_count: usize) -> (r: IndexAvailability)
    ensures
        r == availability_for_stage_spec(stage@, entry_count),
{
    if entry_count == 0 {
        return IndexAvailability::Unavailable;
    }
    if str_eq(stage, "configured-roots") || str_eq(stage, "remaining-drives") {
        IndexAvailability::Completing
    } else if str_eq(stage, "content-index") {
        IndexAvailability::ContentIndexing
    } else {
        IndexAvailability::QuickAvailable
    }
}

/// Generation-guarded lifecycle of the index status: refreshes are numbered and
/// only the newest refresh may report progress, completion or failure.
#[derive(Debug, Clone)]
pub struct IndexLifecycle {
    generation: u64,
    status: IndexStatus,
}

impl IndexLifecycle {
    /// The generation of the newest refresh.
    pub closed spec fn current_generation(&self) -> u64 {
        self.generation
    }

    /// The current status.
    pub closed spec fn status_spec(&self) -> IndexStatus {
        self.status
    }

    pub fn from_ready(entry_count: usize, completed_at_ms: i64) -> (r: Self)
        ensures
            r.current_generation() == 0,
            r.status_spec().kind == IndexStatusKind::Ready,
            r.status_spec().availability == IndexAvailability::Complete,
            r.status_spec().entry_count == entry_count,
            r.status_spec().message.is_none(),
            r.status_spec().generation == 0,
            r.status_spec().completed_at_ms == Some(completed_at_ms),
            r.status_spec().stage@ == Seq::<char>::empty(),
            r.status_spec().current_root.is_none(),
            r.status_spec().scanned == 0,
            r.status_spec().accepted == 0,
            r.status_spec().skipped == 0,
            r.status_spec().failures == 0,
    {
        IndexLifecycle {
            generation: 0,
            status: IndexStatus {
                kind: IndexStatusKind::Ready,
                availability: IndexAvailability::Complete,
                entry_count,
                message: None,
                generation: 0,
                completed_at_ms: Some(completed_at_ms),
                stage: String::new(),
                current_root: None,
                scanned: 0,
                accepted: 0,
                skipped: 0,
                failures: 0,
            },
        }
    }

    pub fn status(&self) -> (r: &IndexStatus)
        ensures
            *r == self.status_spec(),
    {
        &self.status
    }

    /// Starts a new refresh and returns its generation.
    pub fn start_refresh(&mut self, has_existing_index: bool) -> (r: u64)
        ensures
            r == (if old(self).current_generation() == u64::MAX { u64::MAX } else {
                (old(self).current_generation() + 1) as u64
            }),
            final(self).current_generation() == r,
            final(self).status_spec().kind == (if has_existing_index {
                IndexStatusKind::Refreshing
            } else {
                IndexStatusKind::Building
            }),
            final(self).status_spec().availability == (if has_existing_index {
                IndexAvailability::Complete
            } else {
                IndexAvailability::Unavailable
            }),
            final(self).status_spec().message.is_none(),
            final(self).status_spec().generation == r,
            final(self).status_spec().stage@ == Seq::<char>::empty(),
            final(self).status_spec().current_root.is_none(),
            final(self).status_spec().scanned == 0,
            final(self).status_spec().accepted == 0,
            final(self).status_spec().skipped == 0,
            final(self).status_spec().failures == 0,
            final(self).status_spec().entry_count == old(self).status_spec().entry_count,
            final(self).status_spec().completed_at_ms == old(self).status_spec().completed_at_ms,
    {
        self.generation = self.generation.saturating_add(1);
        self.status.kind = if has_existing_index {
            IndexStatusKind::Refreshing
        } else {
            IndexStatusKind::Building
        };
        self.status.availability = if has_existing_index {
            IndexAvailability::Complete
        } else {
            IndexAvailability::Unavailable
        };
        self.status.message = None;
        self.status.generation = self.generation;
        self.status.stage = String::new();
        self.status.current_root = None;
        self.status.scanned = 0;
        self.status.accepted = 0;
        self.status.skipped = 0;
        self.status.failures = 0;
        self.generation
    }

    /// Records progress of the current refresh; a stale generation changes nothing.
    pub fn update_progress(
        &mut self,
        generation: u64,
        stage: &str,
        current_root: Option<String>,
        stats: IndexScanStats,
        entry_count: usize,
    ) -> (r: bool)
        ensures
            r == (generation == old(self).current_generation()),
            !r ==> *final(self) == *old(self),
            r ==> {
                let s = final(self).status_spec();
                let o = old(self).status_spec();
                &&& final(self).current_generation() == old(self).current_generation()
                &&& s.availability == availability_for_stage_spec(stage@, entry_count)
                &&& s.stage@ == stage@
                &&& s.current_root == current_root
                &&& s.scanned == stats.scanned
                &&& s.accepted == stats.accepted
                &&& s.skipped == stats.skipped
                &&& s.failures == stats.failures
                &&& s.entry_count == entry_count
                &&& s.kind == o.kind
                &&& s.message == o.message
                &&& s.generation == o.generation
                &&& s.completed_at_ms == o.completed_at_ms
            },
    {
        if generation != self.generation {
            return false;
        }
        self.status.availability = availability_for_progress_stage(stage, entry_count);
        self.status.stage = owned(stage);
        self.status.current_root = current_root;
        self.status.scanned = stats.scanned;
        self.status.accepted = stats.accepted;
        self.status.skipped = stats.skipped;
        self.status.failures = stats.failures;
        self.status.entry_count = entry_count;
        true
    }

    /// Marks the current refresh complete; a stale generation changes nothing.
    pub fn complete_refresh(&mut self, generation: u64, entry_count: usize, completed_at_ms: i64) -> (r: bool)
        ensures
            r == (generation == old(self).current_generation()),
            !r ==> *final(self) == *old(self),
            r ==> {
                let s = final(self).status_spec();
                let o = old(self).status_spec();
                &&& final(self).current_generation() == old(self).current_generation()
                &&& s.kind == IndexStatusKind::Ready
                &&& s.availability == IndexAvailability::Complete
                &&& s.entry_count == entry_count
                &&& s.message.is_none()
                &&& s.generation == generation
                &&& s.completed_at_ms == Some(completed_at_ms)
                &&& s.stage@ == Seq::<char>::empty()
                &&& s.current_root.is_none()
                &&& s.scanned == o.scanned
                &&& s.accepted == o.accepted
                &&& s.skipped == o.skipped
                &&& s.failures == o.failures
            },
    {
        if generation != self.generation {
            return false;
        }
        self.status = IndexStatus {
            kind: IndexStatusKind::Ready,
            availability: IndexAvailability::Complete,
            entry_count,
            message: None,
            generation,
            completed_at_ms: Some(completed_at_ms),
            stage: String::new(),
            current_root: None,
            scanned: self.status.scanned,
            accepted: self.status.accepted,
            skipped: self.status.skipped,
            failures: self.status.failures,
        };
        true
    }

    /// Marks the current refresh failed, keeping what is still searchable; a stale
    /// generation changes nothing.
    pub fn fail_refresh(&mut self, generation: u64, message: String) -> (r: bool)
        ensures
            r == (generation == old(self).current_generation()),
            !r ==> *final(self) == *old(self),
            r ==> {
                let s = final(self).status_spec();
                let o = old(self).status_spec();
                &&& final(self).current_generation() == old(self).current_generation()
                &&& s.kind == IndexStatusKind::Failed
                &&& s.availability == (if o.entry_count == 0 {
                    IndexAvailability::Unavailable
                } else {
                    o.availability
                })
                &&& s.message == Some(message)
                &&& s.generation == generation
                &&& s.entry_count == o.entry_count
                &&& s.completed_at_ms == o.completed_at_ms
                &&& s.stage == o.stage
                &&& s.current_root == o.current_root
                &&& s.scanned == o.scanned
                &&& s.accepted == o.accepted
                &&& s.skipped == o.skipped
                &&& s.failures == o.failures
            },
    {
        if generation != self.generation {
            return false;
        }
        self.status.kind = IndexStatusKind::Failed;
        if self.status.entry_count == 0 {
            self.status.availability = IndexAvailability::Unavailable;
        }
        self.status.message = Some(message);
        self.status.generation = generation;
        true
    }
}

impl Default for IndexLifecycle {
    fn default() -> (r: Self)
        ensures
            r.current_generation() == 0,
            r.status_spec().kind == IndexStatusKind::Unbuilt,
            r.status_spec().availability == IndexAvailability::Unavailable,
            r.status_spec().entry_count == 0,
            r.status_spec().message.is_none(),
            r.status_spec().generation == 0,
            r.status_spec().completed_at_ms.is_none(),
            r.status_spec().stage@ == Seq::<char>::empty(),
            r.status_spec().current_root.is_none(),
            r.status_spec().scanned == 0,
            r.status_spec().accepted == 0,
            r.status_spec().skipped == 0,
            r.status_spec().failures == 0,
    {
        IndexLifecycle {
            generation: 0,
            status: IndexStatus {
                kind: IndexStatusKind::Unbuilt,
                availability: IndexAvailability::Unavailable,
                entry_count: 0,
                message: None,
                generation: 0,
                completed_at_ms: None,
                stage: String::new(),
                current_root: None,
                scanned: 0,
                accepted: 0,
                skipped: 0,
                failures: 0,
            },
        }
    }
}

/// Why incremental indexing fell back to a slower or degraded mode.
#[derive(Debug, Clone, Copy, PartialEq, Eq, Structural)]
pub enum IndexDegradationCode {
    WatcherInitializationFailed,
    WatcherRuntimeFailed,
    WatcherOverflow,
    ChannelOverflow,
    JournalWriteFailed,
    JournalReplayFailed,
    CalibrationFailed,
    FullRefreshFallback,
}

/// What to scan: roots, exclusions and whether project ignore files apply.
#[derive(Debug, Clone, PartialEq, Eq)]
pub struct IndexScanOptions {
    pub include_dirs: Vec<String>,
    pub exclude_dirs: Vec<String>,
    pub exclude_patterns: Vec<String>,
    pub respect_project_ignores: bool,
}

impl Default for IndexScanOptions {
    fn default() -> (r: Self)
        ensures
            r.include_dirs@.len() == 0,
            r.exclude_dirs@.len() == 0,
            r.exclude_patterns@.len() == 0,
            r.respect_project_ignores,
    {
        IndexScanOptions {
            include_dirs: Vec::new(),
            exclude_dirs: Vec::new(),
            exclude_patterns: Vec::new(),
            respect_project_ignores: true,
        }
    }
}

} // verus!
