//! The launcher's configuration: its defaults and its validation.

use vstd::prelude::*;
use crate::paths::strings_view;
use crate::platform::{parse_shortcut_spec, PlatformKind, WakeShortcut};
use crate::text::{contains_seq, lemma_seq_lt_irreflexive, lemma_seq_lt_total, lemma_seq_lt_transitive, lex_less, chars_of, chars_eq, owned, seq_lt, str_contains, has_suffix};

verus! {

broadcast use vstd::string::group_string_axioms;

#[derive(Debug, Clone, PartialEq, Eq)]
pub struct WebSearchEngineConfig {
    pub name: String,
    pub url: String,
}

/// An engine as plain values: its prefix, name and URL template.
pub open spec fn engine_view(e: (String, WebSearchEngineConfig)) -> (Seq<char>, Seq<char>, Seq<char>) {
    (e.0@, e.1.name@, e.1.url@)
}

/// Web search engines by prefix, in prefix order, one per prefix.
#[derive(Debug, PartialEq, Eq)]
pub struct EngineMap {
    entries: Vec<(String, WebSearchEngineConfig)>,
}

/// The entries' prefixes increase strictly.
pub open spec fn prefixes_ascending(s: Seq<(Seq<char>, Seq<char>, Seq<char>)>) -> bool {
    forall|i: int, j: int| 0 <= i < j < s.len() ==> seq_lt(#[trigger] s[i].0, #[trigger] s[j].0)
}

impl EngineMap {
    #[verifier::type_invariant]
    spec fn inv(&self) -> bool {
        prefixes_ascending(self.listed())
    }

    /// The engines as plain values, in prefix order.
    pub closed spec fn listed(&self) -> Seq<(Seq<char>, Seq<char>, Seq<char>)> {
        Seq::new(self.entries@.len(), |i: int| engine_view(self.entries@[i]))
    }

    /// The engines as a map from prefix to name and URL.
    pub open spec fn as_map(&self) -> Map<Seq<char>, (Seq<char>, Seq<char>)> {
        Map::new(
            |k: Seq<char>| exists|i: int| 0 <= i < self.listed().len() && #[trigger] self.listed()[i].0 == k,
            |k: Seq<char>| {
                let i = choose|i: int| 0 <= i < self.listed().len() && #[trigger] self.listed()[i].0 == k;
                (self.listed()[i].1, self.listed()[i].2)
            },
        )
    }

    pub fn new() -> (r: Self)
        ensures
            r.listed() == Seq::<(Seq<char>, Seq<char>, Seq<char>)>::empty(),
            prefixes_ascending(r.listed()),
    {
        let r = EngineMap { entries: Vec::new() };
        assert(r.listed() =~= Seq::<(Seq<char>, Seq<char>, Seq<char>)>::empty());
        r
    }

    pub fn len(&self) -> (r: usize)
        ensures
            r == self.listed().len(),
    {
        self.entries.len()
    }

    /// The engines, in prefix order.
    pub fn entries(&self) -> (r: &[(String, WebSearchEngineConfig)])
        ensures
            Seq::new(r@.len(), |i: int| engine_view(r@[i])) == self.listed(),
            prefixes_ascending(self.listed()),
    {
        proof {
            use_type_invariant(self);
        }
        let r = self.entries.as_slice();
        assert(Seq::new(r@.len(), |i: int| engine_view(r@[i])) =~= self.listed());
        r
    }

    /// Where `prefix` is or would go, and whether it is there.
    fn locate(&self, prefix: &str) -> (r: (usize, bool))
        ensures
            r.0 <= self.listed().len(),
            forall|i: int| 0 <= i < r.0 ==> seq_lt(#[trigger] self.listed()[i].0, prefix@),
            r.0 < self.listed().len() ==> !seq_lt(self.listed()[r.0 as int].0, prefix@),
            r.1 == (r.0 < self.listed().len() && self.listed()[r.0 as int].0 == prefix@),
            !r.1 ==> forall|i: int| 0 <= i < self.listed().len() ==> #[trigger] self.listed()[i].0 != prefix@,
    {
        proof {
            use_type_invariant(self);
        }
        let key = chars_of(prefix);
        let ghost s = self.listed();
        let mut i: usize = 0;
        while i < self.entries.len()
            invariant
                i <= self.entries@.len(),
                s == self.listed(),
                key@ == prefix@,
                forall|k: int| 0 <= k < i ==> seq_lt(#[trigger] s[k].0, prefix@),
            ensures
                i <= self.entries@.len(),
                forall|k: int| 0 <= k < i ==> seq_lt(#[trigger] s[k].0, prefix@),
                i < self.entries@.len() ==> !seq_lt(s[i as int].0, prefix@),
            decreases self.entries@.len() - i,
        {
            let kc = chars_of(self.entries[i].0.as_str());
            assert(kc@ == s[i as int].0);
            if !lex_less(kc.as_slice(), key.as_slice()) {
                break;
            }
            i = i + 1;
        }
        let found = if i < self.entries.len() {
            let kc = chars_of(self.entries[i].0.as_str());
            chars_eq(kc.as_slice(), key.as_slice())
        } else {
            false
        };
        proof {
            if !found {
                assert forall|j: int| 0 <= j < s.len() implies #[trigger] s[j].0 != prefix@ by {
                    if j < i {
                        lemma_seq_lt_irreflexive(prefix@);
                    } else if j > i {
                        assert(seq_lt(s[i as int].0, s[j].0));
                        lemma_seq_lt_total(s[i as int].0, prefix@);
                        if s[j].0 == prefix@ {
                            lemma_seq_lt_transitive(prefix@, s[i as int].0, s[j].0);
                            lemma_seq_lt_irreflexive(prefix@);
                        }
                    }
                }
            }
        }
        (i, found)
    }

    /// The engine with `prefix`.
    pub fn get(&self, prefix: &str) -> (r: Option<&WebSearchEngineConfig>)
        ensures
            match r {
                Some(e) => self.as_map().contains_key(prefix@) && self.as_map()[prefix@] == (e.name@, e.url@),
                None => !self.as_map().contains_key(prefix@),
            },
    {
        proof {
            use_type_invariant(self);
        }
        let (i, found) = self.locate(prefix);
        if found {
            proof {
                let s = self.listed();
                let k = choose|k: int| 0 <= k < s.len() && #[trigger] s[k].0 == prefix@;
                if k != i {
                    if k < i {
                        assert(seq_lt(s[k].0, s[i as int].0));
                    } else {
                        assert(seq_lt(s[i as int].0, s[k].0));
                    }
                    lemma_seq_lt_irreflexive(prefix@);
                }
            }
            Some(&self.entries[i].1)
        } else {
            None
        }
    }

    pub fn contains_key(&self, prefix: &str) -> (r: bool)
        ensures
            r == self.as_map().contains_key(prefix@),
    {
        let (_, found) = self.locate(prefix);
        found
    }

    /// Sets the engine of `prefix`, keeping prefix order.
    pub fn insert(&mut self, prefix: String, engine: WebSearchEngineConfig)
        ensures
            final(self).as_map() == old(self).as_map().insert(prefix@, (engine.name@, engine.url@)),
            prefixes_ascending(final(self).listed()),
    {
        proof {
            use_type_invariant(&*self);
        }
        let (i, found) = self.locate(prefix.as_str());
        let ghost s = self.listed();
        let ghost pv = prefix@;
        let ghost ev = (prefix@, engine.name@, engine.url@);
        let mut taken = EngineMap::new();
        std::mem::swap(&mut taken, self);
        let EngineMap { mut entries } = taken;
        let ghost new_s: Seq<(Seq<char>, Seq<char>, Seq<char>)>;
        if found {
            entries.set(i, (prefix, engine));
            proof {
                new_s = s.update(i as int, ev);
            }
        } else {
            entries.insert(i, (prefix, engine));
            proof {
                new_s = s.insert(i as int, ev);
            }
        }
        proof {
            assert(Seq::new(entries@.len(), |k: int| engine_view(entries@[k])) =~= new_s);
            assert forall|a: int, b: int| 0 <= a < b < new_s.len() implies seq_lt(#[trigger] new_s[a].0, #[trigger] new_s[b].0) by {
                if found {
                    if a == i {
                        assert(s[i as int].0 == pv);
                    } else if b == i {
                        assert(s[i as int].0 == pv);
                    }
                } else {
                    if i < s.len() {
                        lemma_seq_lt_total(s[i as int].0, pv);
                    }
                    if b < i {
                    } else if b == i {
                    } else if a < i {
                        assert(seq_lt(pv, s[i as int].0));
                        if b - 1 > i {
                            lemma_seq_lt_transitive(pv, s[i as int].0, s[b - 1].0);
                        }
                        lemma_seq_lt_transitive(s[a].0, pv, s[b - 1].0);
                    } else if a == i {
                        assert(seq_lt(pv, s[i as int].0));
                        if b - 1 > i {
                            lemma_seq_lt_transitive(pv, s[i as int].0, s[b - 1].0);
                        }
                    } else {
                        assert(seq_lt(s[a - 1].0, s[b - 1].0));
                    }
                }
            }
        }
        *self = EngineMap { entries };
        proof {
            let old_map = Map::new(
                |k: Seq<char>| exists|x: int| 0 <= x < s.len() && #[trigger] s[x].0 == k,
                |k: Seq<char>| {
                    let x = choose|x: int| 0 <= x < s.len() && #[trigger] s[x].0 == k;
                    (s[x].1, s[x].2)
                },
            );
            assert(self.listed() == new_s);
            assert(self.as_map() =~= old_map.insert(pv, (engine.name@, engine.url@))) by {
                assert forall|k: Seq<char>| #[trigger] self.as_map().contains_key(k) == old_map.insert(
                    pv,
                    (engine.name@, engine.url@),
                ).contains_key(k) by {
                    if self.as_map().contains_key(k) {
                        let x = choose|x: int| 0 <= x < new_s.len() && #[trigger] new_s[x].0 == k;
                        if k != pv {
                            if found {
                                assert(s[x].0 == k);
                            } else if x < i {
                                assert(s[x].0 == k);
                            } else {
                                assert(s[x - 1].0 == k);
                            }
                        }
                    }
                    if old_map.insert(pv, (engine.name@, engine.url@)).contains_key(k) {
                        if k == pv {
                            assert(new_s[i as int].0 == k);
                        } else {
                            let x = choose|x: int| 0 <= x < s.len() && #[trigger] s[x].0 == k;
                            if found || x < i {
                                assert(new_s[x].0 == k);
                            } else {
                                assert(new_s[x + 1].0 == k);
                            }
                        }
                    }
                }
                assert forall|k: Seq<char>| #[trigger] self.as_map().contains_key(k) implies self.as_map()[k]
                    == old_map.insert(pv, (engine.name@, engine.url@))[k] by {
                    let x = choose|x: int| 0 <= x < new_s.len() && #[trigger] new_s[x].0 == k;
                    if k == pv {
                        if x != i {
                            if x < i {
                                assert(seq_lt(new_s[x].0, new_s[i as int].0));
                            } else {
                                assert(seq_lt(new_s[i as int].0, new_s[x].0));
                            }
                            lemma_seq_lt_irreflexive(pv);
                        }
                    } else {
                        let y = choose|y: int| 0 <= y < s.len() && #[trigger] s[y].0 == k;
                        let yy = if found || y < i { y } else { y + 1 };
                        assert(new_s[yy] == s[y]);
                        if x != yy {
                            if x < yy {
                                assert(seq_lt(new_s[x].0, new_s[yy].0));
                            } else {
                                assert(seq_lt(new_s[yy].0, new_s[x].0));
                            }
                            lemma_seq_lt_irreflexive(k);
                        }
                    }
                }
            }
        }
    }
}

impl Clone for EngineMap {
    fn clone(&self) -> (r: Self)
        ensures
            r.listed() == self.listed(),
    {
        proof {
            use_type_invariant(self);
        }
        let mut entries: Vec<(String, WebSearchEngineConfig)> = Vec::new();
        let mut i: usize = 0;
        while i < self.entries.len()
            invariant
                i <= self.entries@.len(),
                prefixes_ascending(self.listed()),
                entries@.len() == i,
                Seq::new(entries@.len(), |k: int| engine_view(entries@[k])) == self.listed().take(i as int),
            decreases self.entries@.len() - i,
        {
            let e = &self.entries[i];
            let c = (e.0.clone(), WebSearchEngineConfig { name: e.1.name.clone(), url: e.1.url.clone() });
            let ghost before = entries@;
            entries.push(c);
            proof {
                assert(engine_view(c) == self.listed()[i as int]);
                assert forall|k: int| 0 <= k < i implies engine_view(#[trigger] entries@[k]) == self.listed()[k] by {
                    assert(entries@[k] == before[k]);
                    assert(engine_view(before[k]) == Seq::new(before.len(), |k: int| engine_view(before[k]))[k]);
                }
                assert(Seq::new(entries@.len(), |k: int| engine_view(entries@[k])) =~= self.listed().take(i + 1));
            }
            i = i + 1;
        }
        proof {
            assert(self.listed().take(self.entries@.len() as int) =~= self.listed());
        }
        EngineMap { entries }
    }
}

#[derive(Debug, Clone, Copy, PartialEq, Eq, Structural)]
pub enum IndexPerformanceMode {
    Fast,
    Balanced,
    Complete,
}

impl Default for IndexPerformanceMode {
    fn default() -> (r: Self)
        ensures
            r == IndexPerformanceMode::Balanced,
    {
        IndexPerformanceMode::Balanced
    }
}

#[derive(Debug, Clone, PartialEq, Eq)]
pub struct IndexConfig {
    pub include_dirs: Vec<String>,
    pub exclude_dirs: Vec<String>,
    pub exclude_patterns: Vec<String>,
    pub performance_mode: IndexPerformanceMode,
    pub respect_project_ignores: bool,
    pub content_include_dirs: Vec<String>,
    pub content_max_file_bytes: u64,
    pub watcher_enabled: bool,
}

#[derive(Debug, Clone, PartialEq, Eq)]
pub struct QueryConfig {
    pub regex_prefix: String,
}

#[derive(Debug, Clone, PartialEq, Eq)]
pub struct WebSearchConfig {
    pub engines: EngineMap,
}

#[derive(Debug, Clone, PartialEq, Eq)]
pub struct CommandConfig {
    pub prefix: String,
    pub enabled: bool,
}

#[derive(Debug, Clone, PartialEq, Eq)]
pub struct HistoryConfig {
    pub input_history_enabled: bool,
    pub input_max_entries: usize,
    pub file_history_enabled: bool,
    pub calculator_history_enabled: bool,
    pub web_search_history_enabled: bool,
    pub command_history_enabled: bool,
    pub command_max_entries: usize,
}

#[derive(Debug, Clone, PartialEq, Eq)]
pub struct ResultsConfig {
    pub limit: usize,
}

#[derive(Debug, Clone, PartialEq, Eq)]
pub struct HotkeyConfig {
    pub wake_shortcut: String,
}

impl Default for HotkeyConfig {
    fn default() -> (r: Self)
        ensures
            r.wake_shortcut@ == "Shift+Shift"@,
    {
        HotkeyConfig { wake_shortcut: owned("Shift+Shift") }
    }
}

/// The largest file, in bytes, whose content is indexed by default.
pub const DEFAULT_CONTENT_MAX_FILE_BYTES: u64 = 2097152;

/// How many entries each history keeps by default.
pub const DEFAULT_HISTORY_ENTRIES: usize = 15;

#[derive(Debug, Clone, PartialEq, Eq)]
pub struct QuickFoxConfig {
    pub index: IndexConfig,
    pub query: QueryConfig,
    pub web_search: WebSearchConfig,
    pub command: CommandConfig,
    pub history: HistoryConfig,
    pub results: ResultsConfig,
    pub hotkey: HotkeyConfig,
}

#[derive(Debug, Clone, PartialEq, Eq)]
pub enum ConfigValidationError {
    WebSearchTemplateMissingQuery { prefix: String },
    InvalidWakeShortcut { value: String },
}

/// A validation error as plain values: its kind and the prefix or value.
pub open spec fn error_view(e: ConfigValidationError) -> (int, Seq<char>) {
    match e {
        ConfigValidationError::WebSearchTemplateMissingQuery { prefix } => (0, prefix@),
        ConfigValidationError::InvalidWakeShortcut { value } => (1, value@),
    }
}

/// The prefixes of the engines whose URL lacks the `{query}` placeholder, in order.
pub open spec fn missing_query_prefixes(engines: Seq<(Seq<char>, Seq<char>, Seq<char>)>) -> Seq<Seq<char>>
    decreases engines.len(),
{
    if engines.len() == 0 {
        Seq::empty()
    } else {
        let rest = missing_query_prefixes(engines.drop_last());
        if contains_seq(engines.last().2, "{query}"@) {
            rest
        } else {
            rest.push(engines.last().0)
        }
    }
}

/// The engines whose URL has the placeholder, in order.
pub open spec fn valid_engines(engines: Seq<(Seq<char>, Seq<char>, Seq<char>)>) -> Seq<(Seq<char>, Seq<char>, Seq<char>)>
    decreases engines.len(),
{
    if engines.len() == 0 {
        Seq::empty()
    } else {
        let rest = valid_engines(engines.drop_last());
        if contains_seq(engines.last().2, "{query}"@) {
            rest.push(engines.last())
        } else {
            rest
        }
    }
}

/// The prefixes of a list of engines, in order.
pub open spec fn engine_prefixes(engines: Seq<(Seq<char>, Seq<char>, Seq<char>)>) -> Seq<Seq<char>> {
    Seq::new(engines.len(), |i: int| engines[i].0)
}

/// `s.push(x)` holds `p` when `s` does or `p` is `x`.
proof fn lemma_push_contains(s: Seq<Seq<char>>, x: Seq<char>, p: Seq<char>)
    ensures
        s.push(x).contains(p) <==> (s.contains(p) || p == x),
{
    if s.contains(p) {
        let k = choose|k: int| 0 <= k < s.len() && s[k] == p;
        assert(s.push(x)[k] == p);
    }
    if p == x {
        assert(s.push(x)[s.len() as int] == p);
    }
    if s.push(x).contains(p) {
        let k = choose|k: int| 0 <= k < s.len() + 1 && s.push(x)[k] == p;
        if k < s.len() {
            assert(s[k] == p);
        }
    }
}

/// The valid, the reported and the configured prefixes, one engine fewer.
proof fn lemma_engine_lists_step(engines: Seq<(Seq<char>, Seq<char>, Seq<char>)>, p: Seq<char>)
    requires
        engines.len() > 0,
    ensures
        ({
            let rest = engines.drop_last();
            let last = engines.last();
            &&& engine_prefixes(engines).contains(p) <==> (engine_prefixes(rest).contains(p) || p == last.0)
            &&& engine_prefixes(valid_engines(engines)).contains(p) <==> (engine_prefixes(valid_engines(rest)).contains(
                p,
            ) || (p == last.0 && contains_seq(last.2, "{query}"@)))
            &&& missing_query_prefixes(engines).contains(p) <==> (missing_query_prefixes(rest).contains(p) || (p
                == last.0 && !contains_seq(last.2, "{query}"@)))
        }),
{
    let rest = engines.drop_last();
    let last = engines.last();
    assert(engine_prefixes(engines) =~= engine_prefixes(rest).push(last.0));
    lemma_push_contains(engine_prefixes(rest), last.0, p);
    if contains_seq(last.2, "{query}"@) {
        assert(engine_prefixes(valid_engines(engines)) =~= engine_prefixes(valid_engines(rest)).push(last.0));
        lemma_push_contains(engine_prefixes(valid_engines(rest)), last.0, p);
    } else {
        lemma_push_contains(missing_query_prefixes(rest), last.0, p);
    }
}

/// Law: the engines kept as valid are exactly the configured engines that
/// validation reports no missing `{query}` placeholder for.
pub proof fn lemma_valid_engines_agree_with_validation(engines: Seq<(Seq<char>, Seq<char>, Seq<char>)>)
    requires
        prefixes_ascending(engines),
    ensures
        forall|p: Seq<char>|
            #[trigger] engine_prefixes(valid_engines(engines)).contains(p) <==> (engine_prefixes(engines).contains(p)
                && !missing_query_prefixes(engines).contains(p)),
    decreases engines.len(),
{
    if engines.len() > 0 {
        let rest = engines.drop_last();
        let last = engines.last();
        assert(prefixes_ascending(rest));
        lemma_valid_engines_agree_with_validation(rest);
        lemma_engine_lists_within(rest);
        assert(!engine_prefixes(rest).contains(last.0)) by {
            if engine_prefixes(rest).contains(last.0) {
                let k = choose|k: int| 0 <= k < engine_prefixes(rest).len() && engine_prefixes(rest)[k] == last.0;
                assert(seq_lt(engines[k].0, engines[engines.len() - 1].0));
                lemma_seq_lt_irreflexive(last.0);
            }
        }
        assert forall|p: Seq<char>|
            #[trigger] engine_prefixes(valid_engines(engines)).contains(p) <==> (engine_prefixes(engines).contains(p)
                && !missing_query_prefixes(engines).contains(p)) by {
            lemma_engine_lists_step(engines, p);
            assert(engine_prefixes(valid_engines(rest)).contains(p) <==> (engine_prefixes(rest).contains(p)
                && !missing_query_prefixes(rest).contains(p)));
            if p == last.0 {
                assert(!engine_prefixes(valid_engines(rest)).contains(p));
                assert(!missing_query_prefixes(rest).contains(p));
            }
        }
    } else {
        assert forall|p: Seq<char>|
            #[trigger] engine_prefixes(valid_engines(engines)).contains(p) <==> (engine_prefixes(engines).contains(p)
                && !missing_query_prefixes(engines).contains(p)) by {
            assert(engine_prefixes(valid_engines(engines)).len() == 0);
            assert(engine_prefixes(engines).len() == 0);
        }
    }
}

/// The valid and the reported prefixes are all configured prefixes.
proof fn lemma_engine_lists_within(engines: Seq<(Seq<char>, Seq<char>, Seq<char>)>)
    ensures
        forall|p: Seq<char>| #[trigger] engine_prefixes(valid_engines(engines)).contains(p) ==> engine_prefixes(
            engines,
        ).contains(p),
        forall|p: Seq<char>| #[trigger] missing_query_prefixes(engines).contains(p) ==> engine_prefixes(
            engines,
        ).contains(p),
    decreases engines.len(),
{
    if engines.len() > 0 {
        let rest = engines.drop_last();
        lemma_engine_lists_within(rest);
        assert forall|p: Seq<char>| #[trigger] engine_prefixes(valid_engines(engines)).contains(p) implies engine_prefixes(
            engines,
        ).contains(p) by {
            lemma_engine_lists_step(engines, p);
        }
        assert forall|p: Seq<char>| #[trigger] missing_query_prefixes(engines).contains(p) implies engine_prefixes(
            engines,
        ).contains(p) by {
            lemma_engine_lists_step(engines, p);
        }
    }
}

/// Law: every engine is either reported by validation or kept as valid, never
/// both and never neither.
pub proof fn lemma_validation_partitions_engines(engines: Seq<(Seq<char>, Seq<char>, Seq<char>)>)
    ensures
        missing_query_prefixes(engines).len() + valid_engines(engines).len() == engines.len(),
    decreases engines.len(),
{
    if engines.len() > 0 {
        lemma_validation_partitions_engines(engines.drop_last());
    }
}

/// `home` joined with `name` as `Path::join` does: nothing added to an empty
/// home, no separator added after one already there.
pub open spec fn join_path(home: Seq<char>, name: Seq<char>, platform: PlatformKind) -> Seq<char> {
    if home.len() == 0 {
        name
    } else if home.last() == '/' || (platform == PlatformKind::Windows && home.last() == '\\') {
        home + name
    } else if platform == PlatformKind::Windows {
        home + seq!['\\'] + name
    } else {
        home + seq!['/'] + name
    }
}

/// The folders whose content is indexed by default, when they exist: the
/// desktop on Windows, the desktop, documents, downloads and workspace elsewhere.
pub open spec fn content_dir_names(platform: PlatformKind) -> Seq<Seq<char>> {
    if platform == PlatformKind::Windows {
        seq!["Desktop"@, "桌面"@]
    } else {
        seq!["Desktop"@, "Documents"@, "Downloads"@, "workspace"@]
    }
}

fn join_path_exec(home: &str, name: &str, platform: PlatformKind) -> (r: String)
    ensures
        r@ == join_path(home@, name@, platform),
{
    let h = chars_of(home);
    let n = chars_of(name);
    let mut out: Vec<char> = h.clone();
    let len = h.len();
    if len > 0 {
        let last = h[len - 1];
        if !(last == '/' || (platform == PlatformKind::Windows && last == '\\')) {
            out.push(if platform == PlatformKind::Windows { '\\' } else { '/' });
        }
    }
    let base = out.len();
    let mut k: usize = 0;
    let ghost prefix = out@;
    while k < n.len()
        invariant
            k <= n@.len(),
            out@ == prefix + n@.take(k as int),
        decreases n@.len() - k,
    {
        out.push(n[k]);
        proof {
            assert(n@.take(k + 1) =~= n@.take(k as int).push(n@[k as int]));
        }
        k = k + 1;
    }
    proof {
        assert(n@.take(n@.len() as int) =~= n@);
        assert(out@ =~= join_path(home@, name@, platform));
    }
    crate::text::string_from_chars(out.as_slice())
}

/// The candidate folders whose content is indexed by default, under `home`;
/// only those that exist are configured.
pub fn content_dir_candidates(home: &str, platform: PlatformKind) -> (r: Vec<String>)
    ensures
        strings_view(r@) == Seq::new(
            content_dir_names(platform).len(),
            |i: int| join_path(home@, content_dir_names(platform)[i], platform),
        ),
{
    let mut out: Vec<String> = Vec::new();
    if platform == PlatformKind::Windows {
        out.push(join_path_exec(home, "Desktop", platform));
        out.push(join_path_exec(home, "桌面", platform));
        proof {
            reveal_strlit("Desktop");
            reveal_strlit("桌面");
        }
    } else {
        out.push(join_path_exec(home, "Desktop", platform));
        out.push(join_path_exec(home, "Documents", platform));
        out.push(join_path_exec(home, "Downloads", platform));
        out.push(join_path_exec(home, "workspace", platform));
    }
    proof {
        assert(strings_view(out@) =~= Seq::new(
            content_dir_names(platform).len(),
            |i: int| join_path(home@, content_dir_names(platform)[i], platform),
        ));
    }
    out
}

fn string_list(items: &[&str]) -> (r: Vec<String>)
    ensures
        strings_view(r@) == Seq::new(items@.len(), |i: int| items@[i]@),
{
    let mut out: Vec<String> = Vec::new();
    let mut i: usize = 0;
    while i < items.len()
        invariant
            i <= items@.len(),
            strings_view(out@) == Seq::new(i as nat, |k: int| items@[k]@),
            out@.len() == i,
        decreases items@.len() - i,
    {
        let ghost before = out@;
        out.push(items[i].to_owned());
        proof {
            assert forall|k: int| 0 <= k < i implies #[trigger] out@[k]@ == items@[k]@ by {
                assert(out@[k] == before[k]);
                assert(strings_view(before)[k] == before[k]@);
            }
            assert(strings_view(out@) =~= Seq::new((i + 1) as nat, |k: int| items@[k]@));
        }
        i = i + 1;
    }
    out
}

/// The default engines: Google under `g`, DuckDuckGo under `ddg`, Baidu under `bd`.
pub open spec fn default_engines() -> Map<Seq<char>, (Seq<char>, Seq<char>)> {
    map![
        "g"@ => ("Google"@, "https://www.google.com/search?q={query}"@),
        "ddg"@ => ("DuckDuckGo"@, "https://duckduckgo.com/?q={query}"@),
        "bd"@ => ("Baidu"@, "https://www.baidu.com/s?wd={query}"@)
    ]
}

impl QuickFoxConfig {
    /// The default configuration, indexing `include_dirs` and the content of
    /// `content_include_dirs` (the default content folders that exist).
    pub fn default_with_index_dirs(include_dirs: Vec<String>, content_include_dirs: Vec<String>) -> (r: Self)
        ensures
            r.index.include_dirs == include_dirs,
            r.index.exclude_dirs@.len() == 0,
            strings_view(r.index.exclude_patterns@) == seq!["node_modules"@, "target"@, ".git"@],
            r.index.performance_mode == IndexPerformanceMode::Balanced,
            r.index.respect_project_ignores,
            r.index.content_include_dirs == content_include_dirs,
            r.index.content_max_file_bytes == DEFAULT_CONTENT_MAX_FILE_BYTES,
            r.index.watcher_enabled,
            r.query.regex_prefix@ == "re:"@,
            r.web_search.engines.as_map() == default_engines(),
            r.command.prefix@ == ">"@,
            !r.command.enabled,
            r.history == (HistoryConfig {
                input_history_enabled: true,
                input_max_entries: DEFAULT_HISTORY_ENTRIES,
                file_history_enabled: true,
                calculator_history_enabled: false,
                web_search_history_enabled: false,
                command_history_enabled: true,
                command_max_entries: DEFAULT_HISTORY_ENTRIES,
            }),
            r.results.limit == 20,
            r.hotkey.wake_shortcut@ == "Shift+Shift"@,
    {
        let exclude_patterns = string_list(&["node_modules", "target", ".git"]);
        proof {
            reveal_strlit("node_modules");
            reveal_strlit("target");
            reveal_strlit(".git");
        }
        let mut engines = EngineMap::new();
        engines.insert(
            owned("g"),
            WebSearchEngineConfig { name: owned("Google"), url: owned("https://www.google.com/search?q={query}") },
        );
        engines.insert(
            owned("ddg"),
            WebSearchEngineConfig { name: owned("DuckDuckGo"), url: owned("https://duckduckgo.com/?q={query}") },
        );
        engines.insert(
            owned("bd"),
            WebSearchEngineConfig { name: owned("Baidu"), url: owned("https://www.baidu.com/s?wd={query}") },
        );
        proof {
            assert(engines.as_map() =~= default_engines());
        }
        let r = QuickFoxConfig {
            index: IndexConfig {
                include_dirs,
                exclude_dirs: Vec::new(),
                exclude_patterns,
                performance_mode: IndexPerformanceMode::Balanced,
                respect_project_ignores: true,
                content_include_dirs,
                content_max_file_bytes: DEFAULT_CONTENT_MAX_FILE_BYTES,
                watcher_enabled: true,
            },
            query: QueryConfig { regex_prefix: owned("re:") },
            web_search: WebSearchConfig { engines },
            command: CommandConfig { prefix: owned(">"), enabled: false },
            history: HistoryConfig {
                input_history_enabled: true,
                input_max_entries: DEFAULT_HISTORY_ENTRIES,
                file_history_enabled: true,
                calculator_history_enabled: false,
                web_search_history_enabled: false,
                command_history_enabled: true,
                command_max_entries: DEFAULT_HISTORY_ENTRIES,
            },
            results: ResultsConfig { limit: 20 },
            hotkey: HotkeyConfig::default(),
        };
        proof {
            assert(strings_view(r.index.exclude_patterns@) =~= seq!["node_modules"@, "target"@, ".git"@]);
        }
        r
    }

    /// One error per engine whose URL lacks `{query}`, in prefix order, then one
    /// for a wake shortcut that does not parse.
    pub fn validate(&self) -> (r: Vec<ConfigValidationError>)
        ensures
            Seq::new(r@.len(), |i: int| error_view(r@[i])) == Seq::new(
                missing_query_prefixes(self.web_search.engines.listed()).len(),
                |i: int| (0int, missing_query_prefixes(self.web_search.engines.listed())[i]),
            ) + (if parse_shortcut_spec(self.hotkey.wake_shortcut@).is_none() {
                seq![(1int, self.hotkey.wake_shortcut@)]
            } else {
                Seq::empty()
            }),
    {
        let entries = self.web_search.engines.entries();
        let ghost ev = self.web_search.engines.listed();
        let mut errors: Vec<ConfigValidationError> = Vec::new();
        let mut i: usize = 0;
        proof {
            assert(ev.take(0) =~= Seq::<(Seq<char>, Seq<char>, Seq<char>)>::empty());
        }
        while i < entries.len()
            invariant
                i <= entries@.len(),
                Seq::new(entries@.len(), |k: int| engine_view(entries@[k])) == ev,
                errors@.len() == missing_query_prefixes(ev.take(i as int)).len(),
                forall|k: int| 0 <= k < errors@.len() ==> error_view(#[trigger] errors@[k]) == (0int, missing_query_prefixes(ev.take(i as int))[k]),
            decreases entries@.len() - i,
        {
            proof {
                assert(ev.take(i + 1).drop_last() =~= ev.take(i as int));
                assert(ev[i as int] == engine_view(entries@[i as int]));
            }
            let ghost before = errors@;
            if !str_contains(entries[i].1.url.as_str(), "{query}") {
                errors.push(ConfigValidationError::WebSearchTemplateMissingQuery { prefix: entries[i].0.clone() });
            }
            proof {
                assert forall|k: int| 0 <= k < errors@.len() implies error_view(#[trigger] errors@[k]) == (0int, missing_query_prefixes(ev.take(i + 1))[k]) by {
                    if k < before.len() {
                        assert(errors@[k] == before[k]);
                    }
                }
            }
            i = i + 1;
        }
        proof {
            assert(ev.take(entries@.len() as int) =~= ev);
        }
        let ghost before = errors@;
        if WakeShortcut::parse(self.hotkey.wake_shortcut.as_str()).is_none() {
            errors.push(ConfigValidationError::InvalidWakeShortcut { value: self.hotkey.wake_shortcut.clone() });
        }
        proof {
            let spec_errs = Seq::new(
                missing_query_prefixes(ev).len(),
                |i: int| (0int, missing_query_prefixes(ev)[i]),
            );
            assert(Seq::new(errors@.len(), |k: int| error_view(errors@[k])) =~= spec_errs + (
            if parse_shortcut_spec(self.hotkey.wake_shortcut@).is_none() {
                seq![(1int, self.hotkey.wake_shortcut@)]
            } else {
                Seq::empty()
            }));
        }
        errors
    }

    /// The engines whose URL has the `{query}` placeholder.
    pub fn valid_web_search_engines(&self) -> (r: EngineMap)
        ensures
            r.listed() == valid_engines(self.web_search.engines.listed()),
            forall|p: Seq<char>|
                #[trigger] engine_prefixes(r.listed()).contains(p) <==> (engine_prefixes(
                    self.web_search.engines.listed(),
                ).contains(p) && !missing_query_prefixes(self.web_search.engines.listed()).contains(p)),
    {
        let entries = self.web_search.engines.entries();
        let ghost ev = self.web_search.engines.listed();
        let mut out = EngineMap::new();
        let mut i: usize = 0;
        proof {
            assert(ev.take(0) =~= Seq::<(Seq<char>, Seq<char>, Seq<char>)>::empty());
        }
        while i < entries.len()
            invariant
                i <= entries@.len(),
                Seq::new(entries@.len(), |k: int| engine_view(entries@[k])) == ev,
                prefixes_ascending(ev),
                out.listed() == valid_engines(ev.take(i as int)),
                forall|k: int| 0 <= k < out.listed().len() ==> exists|m: int| 0 <= m < i && #[trigger] out.listed()[k] == ev[m],
            decreases entries@.len() - i,
        {
            proof {
                assert(ev.take(i + 1).drop_last() =~= ev.take(i as int));
                assert(ev[i as int] == engine_view(entries@[i as int]));
            }
            let ghost old_listed = out.listed();
            if str_contains(entries[i].1.url.as_str(), "{query}") {
                let e = &entries[i];
                proof {
                    assert forall|k: int| 0 <= k < out.listed().len() implies seq_lt(#[trigger] out.listed()[k].0, e.0@) by {
                        let m = choose|m: int| 0 <= m < i && #[trigger] out.listed()[k] == ev[m];
                        assert(seq_lt(ev[m].0, ev[i as int].0));
                    }
                }
                out.push_last(
                    e.0.clone(),
                    WebSearchEngineConfig { name: e.1.name.clone(), url: e.1.url.clone() },
                );
                proof {
                    assert forall|k: int| 0 <= k < out.listed().len() implies exists|m: int| 0 <= m < i + 1 && #[trigger] out.listed()[k] == ev[m] by {
                        if k == out.listed().len() - 1 {
                            assert(out.listed()[k] == ev[i as int]);
                        } else {
                            let m = choose|m: int| 0 <= m < i && #[trigger] old_listed[k] == ev[m];
                            assert(out.listed()[k] == ev[m]);
                        }
                    }
                }
            }
            i = i + 1;
        }
        proof {
            assert(ev.take(entries@.len() as int) =~= ev);
            lemma_valid_engines_agree_with_validation(ev);
        }
        out
    }
}

impl EngineMap {
    /// Appends an engine whose prefix sorts after every listed one.
    fn push_last(&mut self, prefix: String, engine: WebSearchEngineConfig)
        requires
            forall|i: int| 0 <= i < old(self).listed().len() ==> seq_lt(#[trigger] old(self).listed()[i].0, prefix@),
        ensures
            final(self).listed() == old(self).listed().push((prefix@, engine.name@, engine.url@)),
    {
        proof {
            use_type_invariant(&*self);
        }
        let ghost s = self.listed();
        let mut taken = EngineMap::new();
        std::mem::swap(&mut taken, self);
        let EngineMap { mut entries } = taken;
        entries.push((prefix, engine));
        proof {
            assert(Seq::new(entries@.len(), |k: int| engine_view(entries@[k])) =~= s.push(
                (prefix@, engine.name@, engine.url@),
            ));
        }
        *self = EngineMap { entries };
    }
}

/// How a configuration edit affects the index: not at all, or in what it indexes.
#[derive(Debug, Clone, Copy, PartialEq, Eq, Structural)]
pub enum IndexConfigChange {
    Unchanged,
    IndexSemantics,
}

/// Where the configuration file lives.
#[derive(Debug, Clone)]
pub struct ConfigStore {
    path: String,
}

impl ConfigStore {
    pub fn new(path: String) -> (r: Self)
        ensures
            r.path_spec() == path@,
    {
        ConfigStore { path }
    }

    pub closed spec fn path_spec(&self) -> Seq<char> {
        self.path@
    }

    /// The configuration file's path.
    pub fn path(&self) -> (r: &str)
        ensures
            r@ == self.path_spec(),
    {
        self.path.as_str()
    }
}

} // verus!
