//! Whether an indexed entry matches a parsed file query: its field filters and
//! each ordinary term against the entry's name, segments and path.

use vstd::prelude::*;
use crate::compact_index::{entry_name_extension, name_extension};
use crate::file_query::FileQuery;
use crate::index_entry::{build_search_text, search_text_spec, IndexedEntry};
use crate::paths::{comps_view, strings_view};
use crate::text::{
    ascii_lowercase, chars_of, contains_chars, contains_seq, has_char, has_prefix, lower, lower_chars,
    lower_char, occurs_at, replace_char, replace_chars, starts_with_chars, str_eq, string_from_chars,
    trim_chars, trim_start_char, trim_start_matches, trim_ws,
};

verus! {

broadcast use vstd::string::group_string_axioms;

// ---------------------------------------------------------------------------
// Outside computations
// ---------------------------------------------------------------------------

/// `char::is_alphanumeric`: alphabetic or numeric in Unicode.
pub uninterp spec fn unicode_alphanumeric(c: char) -> bool;

/// `char::is_alphanumeric`; for ASCII, exactly the letters and digits.
#[verifier::external_body]
fn is_alphanumeric(c: char) -> (r: bool)
    ensures
        r == unicode_alphanumeric(c),
        c < '\u{80}' ==> (r == (('a' <= c && c <= 'z') || ('A' <= c && c <= 'Z') || ('0' <= c && c <= '9'))),
{
    c.is_alphanumeric()
}

/// Whether the `globset::GlobSet` built from the single pattern
/// `globset::Glob::new(pattern)` matches `text`; false where the pattern or the
/// set is refused.
pub uninterp spec fn glob_set_accepts(pattern: Seq<char>, text: Seq<char>) -> bool;

/// Builds a one-pattern `GlobSet` (`Glob::new`, `GlobSetBuilder::add`, `build`) and
/// asks `GlobSet::is_match` about `text`; the contract only names the result.
#[verifier::external_body]
pub(crate) fn glob_matches_text(pattern: &str, text: &str) -> (r: bool)
    ensures
        r == glob_set_accepts(pattern@, text@),
{
    match globset::Glob::new(pattern) {
        Ok(glob) => {
            let mut builder = globset::GlobSetBuilder::new();
            builder.add(glob);
            match builder.build() {
                Ok(set) => set.is_match(text),
                Err(_) => false,
            }
        },
        Err(_) => false,
    }
}

/// The score `nucleo_matcher::Matcher::fuzzy_match` (default configuration)
/// gives `needle` in `haystack`, none when it does not match.
pub uninterp spec fn nucleo_fuzzy_score(haystack: Seq<char>, needle: Seq<char>) -> Option<u16>;

/// `Matcher::new(Config::DEFAULT).fuzzy_match` over the UTF-32 forms of the texts;
/// the crate asserts that the haystack holds at most `u32::MAX` characters.
#[verifier::external_body]
fn nucleo_fuzzy_match(haystack: &str, needle: &str) -> (r: Option<u16>)
    requires
        haystack@.len() <= u32::MAX,
    ensures
        r == nucleo_fuzzy_score(haystack@, needle@),
{
    let mut needle_buf = Vec::new();
    let mut haystack_buf = Vec::new();
    let needle = nucleo_matcher::Utf32Str::new(needle, &mut needle_buf);
    let haystack = nucleo_matcher::Utf32Str::new(haystack, &mut haystack_buf);
    nucleo_matcher::Matcher::new(nucleo_matcher::Config::DEFAULT).fuzzy_match(haystack, needle)
}

// ---------------------------------------------------------------------------
// Segments
// ---------------------------------------------------------------------------

/// The separators of name segments (anything not alphanumeric) or of path
/// segments (`/` and `\`).
pub open spec fn is_separator(c: char, by_alnum: bool) -> bool {
    if by_alnum {
        !unicode_alphanumeric(c)
    } else {
        c == '/' || c == '\\'
    }
}

/// The pieces between separators, empty ones kept.
pub open spec fn split_on(s: Seq<char>, by_alnum: bool) -> Seq<Seq<char>>
    decreases s.len(),
{
    if s.len() == 0 {
        seq![Seq::<char>::empty()]
    } else {
        let p = split_on(s.drop_last(), by_alnum);
        if is_separator(s.last(), by_alnum) {
            p.push(Seq::<char>::empty())
        } else {
            p.update(p.len() - 1, p.last().push(s.last()))
        }
    }
}

/// The non-empty pieces, in order.
pub open spec fn drop_empty(p: Seq<Seq<char>>) -> Seq<Seq<char>>
    decreases p.len(),
{
    if p.len() == 0 {
        Seq::empty()
    } else if p.last().len() > 0 {
        drop_empty(p.drop_last()).push(p.last())
    } else {
        drop_empty(p.drop_last())
    }
}

/// The segments of a name (runs of alphanumeric characters).
pub open spec fn name_segments(name: Seq<char>) -> Seq<Seq<char>> {
    drop_empty(split_on(name, true))
}

/// The lower-cased segments of a path (between `/` and `\`).
pub open spec fn path_segments(path: Seq<char>) -> Seq<Seq<char>> {
    let s = drop_empty(split_on(path, false));
    Seq::new(s.len(), |i: int| lower(s[i]))
}

proof fn lemma_split_on_nonempty(s: Seq<char>, by_alnum: bool)
    ensures
        split_on(s, by_alnum).len() >= 1,
    decreases s.len(),
{
    if s.len() > 0 {
        lemma_split_on_nonempty(s.drop_last(), by_alnum);
    }
}

fn segments_of(s: &[char], by_alnum: bool) -> (r: Vec<Vec<char>>)
    ensures
        comps_view(r@) == drop_empty(split_on(s@, by_alnum)),
{
    let mut out: Vec<Vec<char>> = Vec::new();
    let mut cur: Vec<char> = Vec::new();
    let mut i: usize = 0;
    proof {
        assert(s@.take(0) =~= Seq::<char>::empty());
        assert(split_on(s@.take(0), by_alnum).drop_last() =~= Seq::<Seq<char>>::empty());
    }
    while i < s.len()
        invariant
            i <= s@.len(),
            split_on(s@.take(i as int), by_alnum).len() >= 1,
            comps_view(out@) == drop_empty(split_on(s@.take(i as int), by_alnum).drop_last()),
            split_on(s@.take(i as int), by_alnum).last() == cur@,
        decreases s@.len() - i,
    {
        let ghost p = split_on(s@.take(i as int), by_alnum);
        proof {
            assert(s@.take(i + 1).drop_last() =~= s@.take(i as int));
            assert(s@.take(i + 1).last() == s@[i as int]);
        }
        let c = s[i];
        let sep = if by_alnum {
            !is_alphanumeric(c)
        } else {
            c == '/' || c == '\\'
        };
        if sep {
            let ghost before = comps_view(out@);
            if cur.len() > 0 {
                out.push(cur);
                proof {
                    assert(comps_view(out@) =~= before.push(p.last()));
                }
            }
            cur = Vec::new();
            proof {
                let q = p.push(Seq::<char>::empty());
                assert(q.drop_last() =~= p);
                assert(p =~= p.drop_last().push(p.last()));
            }
        } else {
            cur.push(c);
            proof {
                let q = p.update(p.len() - 1, p.last().push(c));
                assert(q.drop_last() =~= p.drop_last());
            }
        }
        i = i + 1;
    }
    proof {
        assert(s@.take(s@.len() as int) =~= s@);
        let p = split_on(s@, by_alnum);
        assert(p =~= p.drop_last().push(p.last()));
    }
    if cur.len() > 0 {
        let ghost before = comps_view(out@);
        out.push(cur);
        proof {
            assert(comps_view(out@) =~= before.push(split_on(s@, by_alnum).last()));
        }
    }
    out
}

// ---------------------------------------------------------------------------
// Fuzzy segment matching
// ---------------------------------------------------------------------------

/// Scanning `s` for the characters of `q` in order, each at its first chance:
/// how many matched, where the first matched, and where the last matched.
pub open spec fn fuzzy_scan(q: Seq<char>, s: Seq<char>) -> (nat, int, int)
    decreases s.len(),
{
    if s.len() == 0 {
        (0, -1, -1)
    } else {
        let prev = fuzzy_scan(q, s.drop_last());
        let idx = s.len() - 1;
        if prev.0 < q.len() && s.last() == q[prev.0 as int] {
            ((prev.0 + 1) as nat, if prev.0 == 0 { idx } else { prev.1 }, idx)
        } else {
            prev
        }
    }
}

/// The characters of `q` occur in order in `s`, within a span of at most twice
/// `q`'s length (at least eight).
pub open spec fn fuzzy_segment_matches_spec(q: Seq<char>, s: Seq<char>) -> bool {
    q.len() == 0 || {
        let st = fuzzy_scan(q, s);
        let max_span = if 2 * q.len() >= 8 { 2 * q.len() } else { 8 };
        st.0 == q.len() && st.2 - st.1 + 1 <= max_span
    }
}

proof fn lemma_fuzzy_scan_bounds(q: Seq<char>, s: Seq<char>)
    ensures
        fuzzy_scan(q, s).0 <= q.len(),
        fuzzy_scan(q, s).0 > 0 ==> 0 <= fuzzy_scan(q, s).1 <= fuzzy_scan(q, s).2 < s.len(),
    decreases s.len(),
{
    if s.len() > 0 {
        lemma_fuzzy_scan_bounds(q, s.drop_last());
    }
}

proof fn lemma_fuzzy_scan_done(q: Seq<char>, s: Seq<char>, n: int)
    requires
        0 <= n <= s.len(),
        fuzzy_scan(q, s.take(n)).0 == q.len(),
    ensures
        fuzzy_scan(q, s) == fuzzy_scan(q, s.take(n)),
    decreases s.len() - n,
{
    if n < s.len() {
        assert(s.take(n + 1).drop_last() =~= s.take(n));
        lemma_fuzzy_scan_done(q, s, n + 1);
    } else {
        assert(s.take(n) =~= s);
    }
}

fn fuzzy_segment_matches(q: &[char], s: &[char]) -> (r: bool)
    ensures
        r == fuzzy_segment_matches_spec(q@, s@),
{
    if q.len() == 0 {
        return true;
    }
    let mut k: usize = 0;
    let mut first: usize = 0;
    let mut i: usize = 0;
    while i < s.len()
        invariant
            i <= s@.len(),
            0 < q@.len(),
            k < q@.len(),
            fuzzy_scan(q@, s@.take(i as int)).0 == k,
            k > 0 ==> fuzzy_scan(q@, s@.take(i as int)).1 == first,
        decreases s@.len() - i,
    {
        proof {
            assert(s@.take(i + 1).drop_last() =~= s@.take(i as int));
            assert(s@.take(i + 1).last() == s@[i as int]);
            lemma_fuzzy_scan_bounds(q@, s@.take(i as int));
        }
        if s[i] == q[k] {
            if k == 0 {
                first = i;
            }
            k = k + 1;
            if k == q.len() {
                proof {
                    lemma_fuzzy_scan_done(q@, s@, i + 1);
                }
                let span = i - first + 1;
                let max_span: usize = if q.len() >= 4 {
                    if q.len() > usize::MAX / 2 {
                        usize::MAX
                    } else {
                        q.len() * 2
                    }
                } else {
                    8
                };
                return span <= max_span;
            }
        }
        i = i + 1;
    }
    proof {
        assert(s@.take(s@.len() as int) =~= s@);
    }
    false
}

/// A segment matches a term: it starts with the term, or starts with the same
/// character and holds the term's characters fuzzily.
pub open spec fn segment_hit(seg: Seq<char>, term: Seq<char>) -> bool {
    has_prefix(seg, term) || (seg.len() > 0 && term.len() > 0 && seg[0] == term[0]
        && fuzzy_segment_matches_spec(term, seg))
}

fn segment_hit_exec(seg: &[char], term: &[char]) -> (r: bool)
    ensures
        r == segment_hit(seg@, term@),
{
    if starts_with_chars(seg, term) {
        return true;
    }
    seg.len() > 0 && term.len() > 0 && seg[0] == term[0] && fuzzy_segment_matches(term, seg)
}

fn any_segment_hit(segs: &Vec<Vec<char>>, term: &[char], Ghost(expected): Ghost<Seq<Seq<char>>>) -> (r: bool)
    requires
        comps_view(segs@) == expected,
    ensures
        r == exists|k: int| 0 <= k < expected.len() && segment_hit(#[trigger] expected[k], term@),
{
    let mut i: usize = 0;
    while i < segs.len()
        invariant
            i <= segs@.len(),
            comps_view(segs@) == expected,
            forall|k: int| 0 <= k < i ==> !segment_hit(#[trigger] expected[k], term@),
        decreases segs@.len() - i,
    {
        assert(expected[i as int] == segs@[i as int]@);
        if segment_hit_exec(segs[i].as_slice(), term) {
            return true;
        }
        i = i + 1;
    }
    false
}

// ---------------------------------------------------------------------------
// Entries
// ---------------------------------------------------------------------------

/// The text an entry's ordinary terms are matched against: its cached search
/// text, or the one built from its name and path.
pub open spec fn entry_search_text_spec(e: IndexedEntry) -> Seq<char> {
    if e.search_text@.len() == 0 {
        search_text_spec(e.name@, e.path@)
    } else {
        e.search_text@
    }
}

pub(crate) fn entry_search_text(entry: &IndexedEntry) -> (r: String)
    ensures
        r@ == entry_search_text_spec(*entry),
{
    if entry.search_text.as_str().is_empty() {
        build_search_text(entry.name.as_str(), entry.path.as_str())
    } else {
        entry.search_text.clone()
    }
}

/// The entry carries a search text of its own, other than the one its name and
/// path would give.
pub open spec fn uses_custom_cached_text(e: IndexedEntry, search_text: Seq<char>) -> bool {
    e.search_text@.len() > 0 && search_text != search_text_spec(e.name@, e.path@)
}

/// An entry's extension: its own without leading dots, else its name's; lower-cased.
pub open spec fn entry_extension_spec(e: IndexedEntry) -> Option<Seq<char>> {
    match e.extension {
        Some(x) => Some(lower(trim_start_char(x@, '.'))),
        None => name_extension(e.name@),
    }
}

fn entry_extension(entry: &IndexedEntry) -> (r: Option<Vec<char>>)
    ensures
        match r {
            Some(v) => entry_extension_spec(*entry) == Some(v@),
            None => entry_extension_spec(*entry) is None,
        },
{
    match &entry.extension {
        Some(x) => {
            let chars = chars_of(x.as_str());
            let trimmed = trim_start_matches(chars.as_slice(), '.');
            Some(lower_chars(trimmed.as_slice()))
        },
        None => {
            let name = chars_of(entry.name.as_str());
            entry_name_extension(name.as_slice())
        },
    }
}

/// The directory an entry lies in, with slashes: its parent, else its path up to
/// the last separator, else nothing.
pub open spec fn entry_directory_spec(e: IndexedEntry) -> Seq<char> {
    if e.parent@.len() > 0 {
        replace_char(e.parent@, '\\', '/')
    } else {
        let p = e.path@;
        if exists|i: int| 0 <= i < p.len() && (p[i] == '/' || p[i] == '\\') {
            let k = choose|k: int|
                0 <= k < p.len() && (p[k] == '/' || p[k] == '\\') && forall|j: int|
                    k < j < p.len() ==> !(p[j] == '/' || p[j] == '\\');
            replace_char(p.take(k), '\\', '/')
        } else {
            Seq::empty()
        }
    }
}

fn entry_directory(entry: &IndexedEntry) -> (r: Vec<char>)
    ensures
        r@ == entry_directory_spec(*entry),
{
    if !entry.parent.as_str().is_empty() {
        let p = chars_of(entry.parent.as_str());
        return replace_chars(p.as_slice(), '\\', '/');
    }
    let p = chars_of(entry.path.as_str());
    let mut i: usize = p.len();
    while i > 0
        invariant
            i <= p@.len(),
            p@ == entry.path@,
            entry.parent@.len() == 0,
            forall|j: int| i <= j < p@.len() ==> !(p@[j] == '/' || p@[j] == '\\'),
        decreases i,
    {
        if p[i - 1] == '/' || p[i - 1] == '\\' {
            let k: usize = i - 1;
            proof {
                assert(0 <= k < p@.len() && (p@[k as int] == '/' || p@[k as int] == '\\') && forall|j: int|
                    k < j < p@.len() ==> !(p@[j] == '/' || p@[j] == '\\'));
                let w = choose|w: int|
                    0 <= w < p@.len() && (p@[w] == '/' || p@[w] == '\\') && forall|j: int|
                        w < j < p@.len() ==> !(p@[j] == '/' || p@[j] == '\\');
                if w < k {
                    assert(!(p@[k as int] == '/' || p@[k as int] == '\\'));
                } else if w > k {
                    assert(!(p@[w] == '/' || p@[w] == '\\'));
                }
            }
            let mut prefix: Vec<char> = Vec::new();
            let mut m: usize = 0;
            while m < k
                invariant
                    m <= k < p@.len(),
                    prefix@ == p@.take(m as int),
                decreases k - m,
            {
                prefix.push(p[m]);
                proof {
                    assert(p@.take(m + 1) =~= p@.take(m as int).push(p@[m as int]));
                }
                m = m + 1;
            }
            proof {
                let pp = entry.path@;
                assert(pp == p@);
                let kk = choose|kk: int|
                    0 <= kk < pp.len() && (pp[kk] == '/' || pp[kk] == '\\') && forall|j: int|
                        kk < j < pp.len() ==> !(pp[j] == '/' || pp[j] == '\\');
                if kk < k {
                    assert(!(pp[k as int] == '/' || pp[k as int] == '\\'));
                } else if kk > k {
                    assert(!(pp[kk] == '/' || pp[kk] == '\\'));
                }
                assert(prefix@ == pp.take(k as int));
            }
            return replace_chars(prefix.as_slice(), '\\', '/');
        }
        i = i - 1;
    }
    Vec::new()
}

/// Glob metacharacters make a directory filter a pattern.
pub open spec fn has_glob_meta(v: Seq<char>) -> bool {
    exists|i: int| 0 <= i < v.len() && (v[i] == '*' || v[i] == '?' || v[i] == '[')
}

/// A directory filter holds: a pattern (slashes for backslashes) matches the
/// directory, or else the directory holds the filter, ASCII case ignored.
pub open spec fn dir_filter_spec(filter: Seq<char>, e: IndexedEntry) -> bool {
    let dir = entry_directory_spec(e);
    if has_glob_meta(filter) {
        glob_set_accepts(replace_char(filter, '\\', '/'), replace_char(dir, '\\', '/'))
    } else {
        contains_seq(lower(dir), lower(filter))
    }
}

fn dir_filter_matches(filter: &str, entry: &IndexedEntry) -> (r: bool)
    ensures
        r == dir_filter_spec(filter@, *entry),
{
    let directory = entry_directory(entry);
    let f = chars_of(filter);
    let meta = has_char(f.as_slice(), '*') || has_char(f.as_slice(), '?') || has_char(f.as_slice(), '[');
    proof {
        if has_glob_meta(filter@) {
            let i = choose|i: int| 0 <= i < filter@.len() && (filter@[i] == '*' || filter@[i] == '?' || filter@[i] == '[');
            assert(f@[i] == filter@[i]);
        }
    }
    if meta {
        let pattern = replace_chars(f.as_slice(), '\\', '/');
        let dir = replace_chars(directory.as_slice(), '\\', '/');
        let ps = string_from_chars(pattern.as_slice());
        let ds = string_from_chars(dir.as_slice());
        return glob_matches_text(ps.as_str(), ds.as_str());
    }
    let ld = lower_chars(directory.as_slice());
    let lf = lower_chars(f.as_slice());
    contains_chars(ld.as_slice(), lf.as_slice())
}

/// `needle` sits in `hay` at position `i` when each pair of characters is
/// compared with ASCII letters folded to lower case.
pub open spec fn occurs_at_ignoring_case(hay: Seq<char>, needle: Seq<char>, i: int) -> bool {
    &&& 0 <= i
    &&& i + needle.len() <= hay.len()
    &&& forall|j: int| 0 <= j < needle.len() ==> lower_char(#[trigger] hay[i + j]) == lower_char(needle[j])
}

/// A directory filter without glob metacharacters holds exactly when it sits
/// somewhere in the entry's directory, ASCII case ignored on both sides.
pub proof fn lemma_plain_dir_filter_ignores_case(filter: Seq<char>, e: IndexedEntry)
    requires
        !has_glob_meta(filter),
    ensures
        dir_filter_spec(filter, e) <==> exists|i: int|
            #[trigger] occurs_at_ignoring_case(entry_directory_spec(e), filter, i),
{
    let dir = entry_directory_spec(e);
    if dir_filter_spec(filter, e) {
        let i = choose|i: int| occurs_at(lower(dir), lower(filter), i);
        assert forall|j: int| 0 <= j < filter.len() implies lower_char(#[trigger] dir[i + j]) == lower_char(filter[j]) by {
            assert(lower(dir).subrange(i, i + filter.len())[j] == lower(filter)[j]);
        }
        assert(occurs_at_ignoring_case(dir, filter, i));
    }
    if exists|i: int| occurs_at_ignoring_case(dir, filter, i) {
        let i = choose|i: int| occurs_at_ignoring_case(dir, filter, i);
        assert forall|j: int| 0 <= j < filter.len() implies lower(dir).subrange(i, i + filter.len())[j] == lower(filter)[j] by {
            assert(lower_char(dir[i + j]) == lower_char(filter[j]));
        }
        assert(lower(dir).subrange(i, i + filter.len()) =~= lower(filter));
        assert(occurs_at(lower(dir), lower(filter), i));
    }
}

/// A directory filter without glob metacharacters that appears verbatim in the
/// entry's directory, such as its last component, holds.
pub proof fn lemma_plain_dir_filter_holds_on_verbatim_part(filter: Seq<char>, e: IndexedEntry, i: int)
    requires
        !has_glob_meta(filter),
        occurs_at(entry_directory_spec(e), filter, i),
    ensures
        dir_filter_spec(filter, e),
{
    let dir = entry_directory_spec(e);
    assert forall|j: int| 0 <= j < filter.len() implies lower_char(#[trigger] dir[i + j]) == lower_char(filter[j]) by {
        assert(dir.subrange(i, i + filter.len())[j] == filter[j]);
    }
    assert(occurs_at_ignoring_case(dir, filter, i));
    lemma_plain_dir_filter_ignores_case(filter, e);
}

/// A directory filter holding `*`, `?` or `[` is a pattern: it holds exactly
/// when it matches the whole directory, backslashes read as slashes on both sides.
pub proof fn lemma_dir_filter_with_meta_is_pattern(filter: Seq<char>, e: IndexedEntry, i: int)
    requires
        0 <= i < filter.len(),
        filter[i] == '*' || filter[i] == '?' || filter[i] == '[',
    ensures
        dir_filter_spec(filter, e) == glob_set_accepts(
            replace_char(filter, '\\', '/'),
            replace_char(entry_directory_spec(e), '\\', '/'),
        ),
{
}

/// Changing the ASCII case of a directory filter without glob metacharacters
/// does not change whether it holds.
pub proof fn lemma_plain_dir_filter_case_blind(filter: Seq<char>, other: Seq<char>, e: IndexedEntry)
    requires
        !has_glob_meta(filter),
        lower(filter) == lower(other),
    ensures
        !has_glob_meta(other),
        dir_filter_spec(filter, e) == dir_filter_spec(other, e),
{
    assert(lower(filter).len() == filter.len());
    assert(lower(other).len() == other.len());
    assert(filter.len() == other.len());
    let lf = lower(filter);
    let lo = lower(other);
    assert forall|j: int| 0 <= j < filter.len() implies lower_char(filter[j]) == lower_char(other[j]) by {
        assert(lf[j] == lower_char(filter[j]));
        assert(lo[j] == lower_char(other[j]));
    }
    assert forall|i: int| 0 <= i < other.len() implies !(other[i] == '*' || other[i] == '?' || other[i] == '[') by {
        assert(lower_char(filter[i]) == lower_char(other[i]));
        assert(!(filter[i] == '*' || filter[i] == '?' || filter[i] == '['));
        if 'A' <= filter[i] && filter[i] <= 'Z' {
            assert('a' <= lower_char(filter[i]) && lower_char(filter[i]) <= 'z');
        }
        if 'A' <= other[i] && other[i] <= 'Z' {
            assert('a' <= lower_char(other[i]) && lower_char(other[i]) <= 'z');
        }
    }
    lemma_plain_dir_filter_ignores_case(filter, e);
    lemma_plain_dir_filter_ignores_case(other, e);
    let dir = entry_directory_spec(e);
    assert forall|i: int| occurs_at_ignoring_case(dir, filter, i) <==> occurs_at_ignoring_case(dir, other, i) by {
        if occurs_at_ignoring_case(dir, filter, i) {
            assert forall|j: int| 0 <= j < other.len() implies lower_char(#[trigger] dir[i + j]) == lower_char(other[j]) by {
                assert(lower_char(dir[i + j]) == lower_char(filter[j]));
            }
        }
        if occurs_at_ignoring_case(dir, other, i) {
            assert forall|j: int| 0 <= j < filter.len() implies lower_char(#[trigger] dir[i + j]) == lower_char(filter[j]) by {
                assert(lower_char(dir[i + j]) == lower_char(other[j]));
            }
        }
    }
}

/// Every field filter holds: each type filter is the entry's extension, each name
/// filter occurs in its name and each directory filter holds, ASCII case ignored.
pub open spec fn fields_match(q: FileQuery, e: IndexedEntry) -> bool {
    &&& forall|i: int| 0 <= i < q.type_filters@.len() ==> entry_extension_spec(e) == Some(#[trigger] q.type_filters@[i]@)
    &&& forall|i: int| 0 <= i < q.name_filters@.len() ==> contains_seq(lower(e.name@), lower(#[trigger] q.name_filters@[i]@))
    &&& forall|i: int| 0 <= i < q.dir_filters@.len() ==> dir_filter_spec(#[trigger] q.dir_filters@[i]@, e)
}

/// An ordinary term matches an entry: the trimmed, lower-cased term is empty; or
/// occurs in a custom search text; or in the name; or heads or fuzzily fills a
/// name segment; or, holding a separator, occurs in the search text; or, holding
/// none, heads or fuzzily fills a path segment.
pub open spec fn term_matches_spec(raw: Seq<char>, e: IndexedEntry, search_text: Seq<char>) -> bool {
    let term = lower(trim_ws(raw));
    let name = lower(e.name@);
    if term.len() == 0 {
        true
    } else if uses_custom_cached_text(e, search_text) && contains_seq(search_text, term) {
        true
    } else if contains_seq(name, term) {
        true
    } else if exists|k: int| 0 <= k < name_segments(name).len() && segment_hit(#[trigger] name_segments(name)[k], term) {
        true
    } else if exists|i: int| 0 <= i < term.len() && (term[i] == '/' || term[i] == '\\') {
        contains_seq(search_text, term)
    } else {
        exists|k: int| 0 <= k < path_segments(e.path@).len() && segment_hit(#[trigger] path_segments(e.path@)[k], term)
    }
}

/// Matches one query term against an entry.
pub trait NamePathMatcher {
    fn matches_term(&self, term: &str, entry: &IndexedEntry, search_text: &str) -> bool;
}

/// The matcher that decides ordinary terms by names, segments and paths.
#[derive(Debug, Clone, Default)]
pub struct StableNamePathMatcher;

impl NamePathMatcher for StableNamePathMatcher {
    fn matches_term(&self, term: &str, entry: &IndexedEntry, search_text: &str) -> (r: bool)
        ensures
            r == term_matches_spec(term@, *entry, search_text@),
    {
        let raw = chars_of(term);
        let trimmed = trim_chars(raw.as_slice());
        let t = lower_chars(trimmed.as_slice());
        if t.len() == 0 {
            return true;
        }
        let st = chars_of(search_text);
        let built = build_search_text(entry.name.as_str(), entry.path.as_str());
        let custom = !entry.search_text.as_str().is_empty() && !str_eq(search_text, built.as_str());
        if custom && contains_chars(st.as_slice(), t.as_slice()) {
            return true;
        }
        let name_chars = chars_of(entry.name.as_str());
        let name = lower_chars(name_chars.as_slice());
        if contains_chars(name.as_slice(), t.as_slice()) {
            return true;
        }
        let name_segs = segments_of(name.as_slice(), true);
        if any_segment_hit(&name_segs, t.as_slice(), Ghost(name_segments(name@))) {
            return true;
        }
        if has_char(t.as_slice(), '/') || has_char(t.as_slice(), '\\') {
            return contains_chars(st.as_slice(), t.as_slice());
        }
        proof {
            assert(!exists|i: int| 0 <= i < t@.len() && (t@[i] == '/' || t@[i] == '\\'));
        }
        let path = chars_of(entry.path.as_str());
        let raw_segs = segments_of(path.as_slice(), false);
        let mut path_segs: Vec<Vec<char>> = Vec::new();
        let mut i: usize = 0;
        while i < raw_segs.len()
            invariant
                i <= raw_segs@.len(),
                comps_view(raw_segs@) == drop_empty(split_on(entry.path@, false)),
                comps_view(path_segs@) == Seq::new(i as nat, |k: int| lower(comps_view(raw_segs@)[k])),
                path_segs@.len() == i,
            decreases raw_segs@.len() - i,
        {
            let l = lower_chars(raw_segs[i].as_slice());
            let ghost before = path_segs@;
            path_segs.push(l);
            proof {
                assert forall|k: int| 0 <= k < i implies #[trigger] path_segs@[k]@ == lower(comps_view(raw_segs@)[k]) by {
                    assert(path_segs@[k] == before[k]);
                    assert(comps_view(before)[k] == before[k]@);
                }
                assert(path_segs@[i as int]@ == lower(comps_view(raw_segs@)[i as int]));
                assert(comps_view(path_segs@) =~= Seq::new((i + 1) as nat, |k: int| lower(comps_view(raw_segs@)[k])));
            }
            i = i + 1;
        }
        proof {
            assert(comps_view(path_segs@) =~= path_segments(entry.path@));
        }
        any_segment_hit(&path_segs, t.as_slice(), Ghost(path_segments(entry.path@)))
    }
}

/// Scores names and paths with `nucleo_matcher`.
#[derive(Debug, Clone, Default)]
pub struct NucleoNamePathMatcher;

impl NucleoNamePathMatcher {
    /// The fuzzy score of `needle` in `haystack`, both ASCII lower-cased.
    pub fn score(&self, needle: &str, haystack: &str) -> (r: Option<u16>)
        requires
            haystack@.len() <= u32::MAX,
        ensures
            r == nucleo_fuzzy_score(lower(haystack@), lower(needle@)),
    {
        let needle = ascii_lowercase(needle);
        let haystack = ascii_lowercase(haystack);
        nucleo_fuzzy_match(haystack.as_str(), needle.as_str())
    }
}

/// Matches parsed file queries against entries.
#[derive(Debug, Clone, Default)]
pub struct FileMatcher {
    name_path: StableNamePathMatcher,
}

impl FileMatcher {
    pub fn new() -> (r: Self) {
        FileMatcher { name_path: StableNamePathMatcher }
    }

    fn matches_fields(&self, query: &FileQuery, entry: &IndexedEntry) -> (r: bool)
        ensures
            r == fields_match(*query, *entry),
    {
        let ext = entry_extension(entry);
        let mut i: usize = 0;
        while i < query.type_filters.len()
            invariant
                i <= query.type_filters@.len(),
                match ext {
                    Some(v) => entry_extension_spec(*entry) == Some(v@),
                    None => entry_extension_spec(*entry) is None,
                },
                forall|k: int| 0 <= k < i ==> entry_extension_spec(*entry) == Some(#[trigger] query.type_filters@[k]@),
            decreases query.type_filters@.len() - i,
        {
            let ok = match &ext {
                Some(v) => {
                    let expected = chars_of(query.type_filters[i].as_str());
                    crate::text::chars_eq(v.as_slice(), expected.as_slice())
                },
                None => false,
            };
            if !ok {
                proof {
                    assert(entry_extension_spec(*entry) != Some(query.type_filters@[i as int]@));
                }
                return false;
            }
            i = i + 1;
        }
        let name_chars = chars_of(entry.name.as_str());
        let name = lower_chars(name_chars.as_slice());
        let mut j: usize = 0;
        while j < query.name_filters.len()
            invariant
                j <= query.name_filters@.len(),
                name@ == lower(entry.name@),
                forall|k: int| 0 <= k < query.type_filters@.len() ==> entry_extension_spec(*entry) == Some(#[trigger] query.type_filters@[k]@),
                forall|k: int| 0 <= k < j ==> contains_seq(lower(entry.name@), lower(#[trigger] query.name_filters@[k]@)),
            decreases query.name_filters@.len() - j,
        {
            let fc = chars_of(query.name_filters[j].as_str());
            let lf = lower_chars(fc.as_slice());
            if !contains_chars(name.as_slice(), lf.as_slice()) {
                return false;
            }
            j = j + 1;
        }
        let mut d: usize = 0;
        while d < query.dir_filters.len()
            invariant
                d <= query.dir_filters@.len(),
                forall|k: int| 0 <= k < query.type_filters@.len() ==> entry_extension_spec(*entry) == Some(#[trigger] query.type_filters@[k]@),
                forall|k: int| 0 <= k < query.name_filters@.len() ==> contains_seq(lower(entry.name@), lower(#[trigger] query.name_filters@[k]@)),
                forall|k: int| 0 <= k < d ==> dir_filter_spec(#[trigger] query.dir_filters@[k]@, *entry),
            decreases query.dir_filters@.len() - d,
        {
            if !dir_filter_matches(query.dir_filters[d].as_str(), entry) {
                return false;
            }
            d = d + 1;
        }
        true
    }

    /// The field filters hold and every ordinary term matches against `search_text`.
    pub fn matches_with_search_text(&self, query: &FileQuery, entry: &IndexedEntry, search_text: &str) -> (r: bool)
        ensures
            r == (fields_match(*query, *entry) && forall|i: int|
                0 <= i < query.ordinary_terms@.len() ==> term_matches_spec(
                    #[trigger] query.ordinary_terms@[i]@,
                    *entry,
                    search_text@,
                )),
    {
        if !self.matches_fields(query, entry) {
            return false;
        }
        let mut i: usize = 0;
        while i < query.ordinary_terms.len()
            invariant
                i <= query.ordinary_terms@.len(),
                forall|k: int| 0 <= k < i ==> term_matches_spec(#[trigger] query.ordinary_terms@[k]@, *entry, search_text@),
            decreases query.ordinary_terms@.len() - i,
        {
            if !self.name_path.matches_term(query.ordinary_terms[i].as_str(), entry, search_text) {
                return false;
            }
            i = i + 1;
        }
        true
    }

    /// `matches_with_search_text` against the entry's own search text.
    pub fn matches(&self, query: &FileQuery, entry: &IndexedEntry) -> (r: bool)
        ensures
            r == (fields_match(*query, *entry) && forall|i: int|
                0 <= i < query.ordinary_terms@.len() ==> term_matches_spec(
                    #[trigger] query.ordinary_terms@[i]@,
                    *entry,
                    entry_search_text_spec(*entry),
                )),
    {
        let search_text = entry_search_text(entry);
        self.matches_with_search_text(query, entry, search_text.as_str())
    }
}

} // verus!
