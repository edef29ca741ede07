//! Explicit regular-expression search (`re:` queries) over the indexed names
//! and paths.

use vstd::prelude::*;
use crate::index::SearchIndex;
use crate::index_entry::IndexedEntry;

verus! {

#[verifier::external_type_specification]
#[verifier::external_body]
pub struct ExRegex(regex::Regex);

/// The error text of `regex::Regex::new(pattern)`, none when it compiles.
pub uninterp spec fn regex_compile_error(pattern: Seq<char>) -> Option<Seq<char>>;

/// Whether the compiled `pattern` matches somewhere in `text`
/// (`regex::Regex::is_match`).
pub uninterp spec fn regex_is_match(pattern: Seq<char>, text: Seq<char>) -> bool;

/// `regex::Regex::new`: the compiled expression, or the text of its error.
#[verifier::external_body]
fn regex_new(pattern: &str) -> (r: Result<regex::Regex, String>)
    ensures
        match r {
            Ok(_) => regex_compile_error(pattern@) is None,
            Err(e) => regex_compile_error(pattern@) == Some(e@),
        },
{
    regex::Regex::new(pattern).map_err(|error| error.to_string())
}

/// A compiled regular expression with the pattern it was compiled from.
pub struct RegexQuery {
    pattern: String,
    compiled: regex::Regex,
}

/// `regex::Regex::is_match` on the query's expression. The query's fields are
/// private and `RegexQuery::new` is the only constructor, so the expression is
/// always the one `Regex::new` compiled from `pattern`; the contract names the
/// result over that pattern.
#[verifier::external_body]
fn regex_query_matches(query: &RegexQuery, text: &str) -> (r: bool)
    ensures
        r == regex_is_match(query.pattern_spec(), text@),
{
    query.compiled.is_match(text)
}

impl RegexQuery {
    pub closed spec fn pattern_spec(&self) -> Seq<char> {
        self.pattern@
    }

    /// Compiles `pattern`; the error text when it does not compile.
    pub fn new(pattern: &str) -> (r: Result<RegexQuery, String>)
        ensures
            r is Ok <==> regex_compile_error(pattern@) is None,
            r matches Ok(q) ==> q.pattern_spec() == pattern@,
            r matches Err(e) ==> regex_compile_error(pattern@) == Some(e@),
    {
        match regex_new(pattern) {
            Ok(compiled) => Ok(RegexQuery { pattern: pattern.to_string(), compiled }),
            Err(e) => Err(e),
        }
    }

    /// Whether the expression matches the entry's name or its path.
    pub fn matches_entry(&self, entry: &IndexedEntry) -> (r: bool)
        ensures
            r == (regex_is_match(self.pattern_spec(), entry.name@) || regex_is_match(self.pattern_spec(), entry.path@)),
    {
        regex_query_matches(self, entry.name.as_str()) || regex_query_matches(self, entry.path.as_str())
    }
}

/// What a regular-expression search comes to.
pub enum RegexSearchOutcome {
    /// The cancellation check asked to stop.
    Cancelled,
    /// The pattern does not compile; the text of the error.
    InvalidPattern(String),
    /// The positions of the matching entries, ascending.
    Matches(Vec<usize>),
}

/// The entry's name or path matches the pattern.
pub open spec fn regex_hit(pattern: Seq<char>, e: IndexedEntry) -> bool {
    regex_is_match(pattern, e.name@) || regex_is_match(pattern, e.path@)
}

impl SearchIndex {
    /// The visible entries whose name or path the regular expression matches,
    /// in index order, at most `limit` of them: every visible match up to the
    /// last one returned, and all of them when fewer than `limit` come back.
    /// `is_cancelled` is asked before every 1024th entry.
    pub fn search_regex<C: Fn() -> bool, V: Fn(&IndexedEntry) -> bool>(
        &self,
        pattern: &str,
        limit: usize,
        is_cancelled: C,
        is_visible: V,
    ) -> (r: RegexSearchOutcome)
        requires
            forall|c: C| c == is_cancelled ==> call_requires(c, ()),
            forall|e: &IndexedEntry| call_requires(is_visible, (e,)),
        ensures
            r is InvalidPattern <==> regex_compile_error(pattern@) is Some,
            r matches RegexSearchOutcome::InvalidPattern(e) ==> regex_compile_error(pattern@) == Some(e@),
            r is Cancelled ==> call_ensures(is_cancelled, (), true),
            match r {
                RegexSearchOutcome::Matches(pos) => {
                    &&& pos@.len() <= limit
                    &&& forall|i: int, j: int| 0 <= i < j < pos@.len() ==> #[trigger] pos@[i] < #[trigger] pos@[j]
                    &&& forall|k: int| 0 <= k < pos@.len() ==> #[trigger] pos@[k] < self@.len()
                    &&& forall|k: int| 0 <= k < pos@.len() ==> regex_hit(pattern@, self@[#[trigger] pos@[k] as int])
                    &&& forall|k: int| 0 <= k < pos@.len() ==> call_ensures(is_visible, (&self@[#[trigger] pos@[k] as int],), true)
                    &&& forall|i: int|
                        0 <= i < self@.len() && regex_hit(pattern@, #[trigger] self@[i]) && (pos@.len() < limit || (
                            pos@.len() > 0 && i < pos@[pos@.len() - 1])) ==> pos@.contains(i as usize) || call_ensures(
                            is_visible,
                            (&self@[i],),
                            false,
                        )
                },
                _ => true,
            },
    {
        let query = match RegexQuery::new(pattern) {
            Ok(q) => q,
            Err(e) => {
                return RegexSearchOutcome::InvalidPattern(e);
            },
        };
        let entries = self.entries();
        let n = entries.len();
        let mut found: Vec<usize> = Vec::new();
        let mut i: usize = 0;
        if limit == 0 {
            return RegexSearchOutcome::Matches(found);
        }
        while i < n
            invariant_except_break
                found@.len() < limit,
            invariant
                i <= n,
                n == self@.len(),
                entries@ == self@,
                query.pattern_spec() == pattern@,
                regex_compile_error(pattern@) is None,
                forall|a: int, b: int| 0 <= a < b < found@.len() ==> #[trigger] found@[a] < #[trigger] found@[b],
                forall|k: int| 0 <= k < found@.len() ==> #[trigger] found@[k] < i,
                forall|k: int| 0 <= k < found@.len() ==> regex_hit(pattern@, self@[#[trigger] found@[k] as int]),
                forall|k: int| 0 <= k < found@.len() ==> call_ensures(is_visible, (&self@[#[trigger] found@[k] as int],), true),
                forall|j: int| 0 <= j < i && regex_hit(pattern@, #[trigger] self@[j]) ==> found@.contains(j as usize)
                    || call_ensures(is_visible, (&self@[j],), false),
                forall|c: C| c == is_cancelled ==> call_requires(c, ()),
                forall|e: &IndexedEntry| call_requires(is_visible, (e,)),
            ensures
                found@.len() <= limit,
                found@.len() < limit ==> i == n,
                i <= n,
                forall|a: int, b: int| 0 <= a < b < found@.len() ==> #[trigger] found@[a] < #[trigger] found@[b],
                forall|k: int| 0 <= k < found@.len() ==> #[trigger] found@[k] < i,
                forall|k: int| 0 <= k < found@.len() ==> regex_hit(pattern@, self@[#[trigger] found@[k] as int]),
                forall|k: int| 0 <= k < found@.len() ==> call_ensures(is_visible, (&self@[#[trigger] found@[k] as int],), true),
                forall|j: int| 0 <= j < i && regex_hit(pattern@, #[trigger] self@[j]) ==> found@.contains(j as usize)
                    || call_ensures(is_visible, (&self@[j],), false),
                found@.len() > 0 && found@.len() == limit ==> found@[found@.len() - 1] == i - 1,
            decreases n - i,
        {
            if i % 1024 == 0 && is_cancelled() {
                return RegexSearchOutcome::Cancelled;
            }
            let entry = &entries[i];
            let visible = is_visible(entry);
            if visible && query.matches_entry(entry) {
                let ghost old_found = found@;
                found.push(i);
                proof {
                    assert forall|x: usize| old_found.contains(x) implies found@.contains(x) by {
                        let m = choose|m: int| 0 <= m < old_found.len() && old_found[m] == x;
                        assert(found@[m] == x);
                    }
                    assert(found@[found@.len() - 1] == i);
                }
                if found.len() >= limit {
                    i = i + 1;
                    break;
                }
            }
            i = i + 1;
        }
        RegexSearchOutcome::Matches(found)
    }
}

} // verus!
