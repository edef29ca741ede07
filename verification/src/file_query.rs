//! Structured file queries: ordinary terms plus `type:`, `name:`, `dir:` and
//! `content:` fields, with straight and curly double quotes grouping words.

use vstd::prelude::*;
use crate::platform::views;
use crate::text::{
    chars_of, find_char, first_index_of, is_whitespace, is_ws, lower, lower_chars, slice_chars,
    string_from_chars, trim_chars, trim_start_char, trim_end_ws, trim_start_matches, trim_start_ws, trim_ws,
};

verus! {

broadcast use vstd::string::group_string_axioms;

/// A parsed query. Each list keeps the order in which its values appeared.
#[derive(Debug, Clone, PartialEq, Eq)]
pub struct FileQuery {
    pub ordinary_terms: Vec<String>,
    pub type_filters: Vec<String>,
    pub name_filters: Vec<String>,
    pub dir_filters: Vec<String>,
    pub content_queries: Vec<String>,
}

/// The value of a query as plain character sequences.
pub struct QueryModel {
    pub ordinary_terms: Seq<Seq<char>>,
    pub type_filters: Seq<Seq<char>>,
    pub name_filters: Seq<Seq<char>>,
    pub dir_filters: Seq<Seq<char>>,
    pub content_queries: Seq<Seq<char>>,
}

impl FileQuery {
    pub open spec fn model(&self) -> QueryModel {
        QueryModel {
            ordinary_terms: views(self.ordinary_terms@),
            type_filters: views(self.type_filters@),
            name_filters: views(self.name_filters@),
            dir_filters: views(self.dir_filters@),
            content_queries: views(self.content_queries@),
        }
    }
}

// ---------------------------------------------------------------------------
// Specification of the grammar
// ---------------------------------------------------------------------------

/// Straight and curly double quotes.
pub open spec fn is_quote(c: char) -> bool {
    c == '"' || c == '\u{201c}' || c == '\u{201d}'
}

pub open spec fn trim_start_quotes(s: Seq<char>) -> Seq<char>
    decreases s.len(),
{
    if s.len() > 0 && is_quote(s[0]) {
        trim_start_quotes(s.drop_first())
    } else {
        s
    }
}

pub open spec fn trim_end_quotes(s: Seq<char>) -> Seq<char>
    decreases s.len(),
{
    if s.len() > 0 && is_quote(s.last()) {
        trim_end_quotes(s.drop_last())
    } else {
        s
    }
}

/// `s` with quotes removed from both ends.
pub open spec fn trim_quotes(s: Seq<char>) -> Seq<char> {
    trim_end_quotes(trim_start_quotes(s))
}

/// The tokenizer's state after some prefix of the input.
pub struct TokenScan {
    pub tokens: Seq<Seq<char>>,
    pub token: Seq<char>,
    pub in_quotes: bool,
}

/// One character of tokenizing: quotes toggle grouping, white space outside
/// quotes ends the current token, anything else is kept.
pub open spec fn scan_step(st: TokenScan, c: char) -> TokenScan {
    if is_quote(c) {
        TokenScan { tokens: st.tokens, token: st.token, in_quotes: !st.in_quotes }
    } else if is_ws(c) && !st.in_quotes {
        if st.token.len() > 0 {
            TokenScan { tokens: st.tokens.push(st.token), token: Seq::empty(), in_quotes: false }
        } else {
            st
        }
    } else {
        TokenScan { tokens: st.tokens, token: st.token.push(c), in_quotes: st.in_quotes }
    }
}

pub open spec fn scan_chars(s: Seq<char>) -> TokenScan
    decreases s.len(),
{
    if s.len() == 0 {
        TokenScan { tokens: Seq::empty(), token: Seq::empty(), in_quotes: false }
    } else {
        scan_step(scan_chars(s.drop_last()), s.last())
    }
}

/// The tokens of a query: its trimmed text split at unquoted white space,
/// with the quote characters themselves dropped.
pub open spec fn tokens_spec(input: Seq<char>) -> Seq<Seq<char>> {
    let st = scan_chars(trim_ws(input));
    if st.token.len() > 0 {
        st.tokens.push(st.token)
    } else {
        st.tokens
    }
}

pub open spec fn empty_query() -> QueryModel {
    QueryModel {
        ordinary_terms: Seq::empty(),
        type_filters: Seq::empty(),
        name_filters: Seq::empty(),
        dir_filters: Seq::empty(),
        content_queries: Seq::empty(),
    }
}

/// Appends the value with its wrapping quotes removed, unless nothing is left.
pub open spec fn push_non_empty_spec(values: Seq<Seq<char>>, value: Seq<char>) -> Seq<Seq<char>> {
    let t = trim_quotes(value);
    if t.len() > 0 {
        values.push(t)
    } else {
        values
    }
}

/// A `type:` value: quotes and leading dots removed, ASCII lower-cased.
pub open spec fn normalize_extension_spec(value: Seq<char>) -> Seq<char> {
    lower(trim_start_char(trim_quotes(value), '.'))
}

pub open spec fn field_type() -> Seq<char> {
    seq!['t', 'y', 'p', 'e']
}

pub open spec fn field_name() -> Seq<char> {
    seq!['n', 'a', 'm', 'e']
}

pub open spec fn field_dir() -> Seq<char> {
    seq!['d', 'i', 'r']
}

pub open spec fn field_content() -> Seq<char> {
    seq!['c', 'o', 'n', 't', 'e', 'n', 't']
}

pub open spec fn is_known_field_spec(field: Seq<char>) -> bool {
    field == field_type() || field == field_name() || field == field_dir() || field
        == field_content()
}

pub open spec fn push_ordinary(q: QueryModel, token: Seq<char>) -> QueryModel {
    QueryModel {
        ordinary_terms: push_non_empty_spec(q.ordinary_terms, token),
        type_filters: q.type_filters,
        name_filters: q.name_filters,
        dir_filters: q.dir_filters,
        content_queries: q.content_queries,
    }
}

pub open spec fn push_field_spec(q: QueryModel, field: Seq<char>, value: Seq<char>) -> QueryModel {
    QueryModel {
        ordinary_terms: q.ordinary_terms,
        type_filters: if field == field_type() {
            push_non_empty_spec(q.type_filters, normalize_extension_spec(value))
        } else {
            q.type_filters
        },
        name_filters: if field == field_name() {
            push_non_empty_spec(q.name_filters, value)
        } else {
            q.name_filters
        },
        dir_filters: if field == field_dir() {
            push_non_empty_spec(q.dir_filters, value)
        } else {
            q.dir_filters
        },
        content_queries: if field == field_content() {
            push_non_empty_spec(q.content_queries, value)
        } else {
            q.content_queries
        },
    }
}

/// Reads the tokens from `i` on. A token `field:value` with a known field fills
/// that field; `field:` with a known field takes the next token as its value;
/// every other token is an ordinary term.
pub open spec fn parse_from(tokens: Seq<Seq<char>>, i: int, q: QueryModel) -> QueryModel
    decreases tokens.len() - i,
{
    if i < 0 || i >= tokens.len() {
        q
    } else {
        let token = tokens[i];
        match first_index_of(token, ':') {
            None => parse_from(tokens, i + 1, push_ordinary(q, token)),
            Some(k) => {
                let field = lower(token.take(k));
                let value = token.skip(k + 1);
                if value.len() == 0 {
                    if is_known_field_spec(field) && i + 1 < tokens.len() {
                        parse_from(tokens, i + 2, push_field_spec(q, field, tokens[i + 1]))
                    } else {
                        parse_from(tokens, i + 1, push_ordinary(q, token))
                    }
                } else if is_known_field_spec(field) {
                    parse_from(tokens, i + 1, push_field_spec(q, field, value))
                } else {
                    parse_from(tokens, i + 1, push_ordinary(q, token))
                }
            },
        }
    }
}

/// The query that a text denotes.
pub open spec fn parse_spec(input: Seq<char>) -> QueryModel {
    parse_from(tokens_spec(input), 0, empty_query())
}

// ---------------------------------------------------------------------------
// Implementation
// ---------------------------------------------------------------------------

impl Default for FileQuery {
    fn default() -> (r: Self)
        ensures
            r.model() == empty_query(),
    {
        let r = FileQuery {
            ordinary_terms: Vec::new(),
            type_filters: Vec::new(),
            name_filters: Vec::new(),
            dir_filters: Vec::new(),
            content_queries: Vec::new(),
        };
        assert(r.model().ordinary_terms =~= Seq::<Seq<char>>::empty());
        assert(r.model().type_filters =~= Seq::<Seq<char>>::empty());
        assert(r.model().name_filters =~= Seq::<Seq<char>>::empty());
        assert(r.model().dir_filters =~= Seq::<Seq<char>>::empty());
        assert(r.model().content_queries =~= Seq::<Seq<char>>::empty());
        r
    }
}

fn is_quote_exec(c: char) -> (r: bool)
    ensures
        r == is_quote(c),
{
    c == '"' || c == '\u{201c}' || c == '\u{201d}'
}

proof fn lemma_trim_start_quotes_skip(s: Seq<char>, i: int)
    requires
        0 <= i <= s.len(),
        forall|k: int| 0 <= k < i ==> is_quote(s[k]),
    ensures
        trim_start_quotes(s) == trim_start_quotes(s.subrange(i, s.len() as int)),
    decreases i,
{
    if i > 0 {
        lemma_trim_start_quotes_skip(s.drop_first(), i - 1);
        assert(s.drop_first().subrange(i - 1, s.drop_first().len() as int) =~= s.subrange(
            i,
            s.len() as int,
        ));
    } else {
        assert(s.subrange(0, s.len() as int) =~= s);
    }
}

proof fn lemma_trim_end_quotes_skip(s: Seq<char>, j: int)
    requires
        0 <= j <= s.len(),
        forall|k: int| j <= k < s.len() ==> is_quote(s[k]),
    ensures
        trim_end_quotes(s) == trim_end_quotes(s.subrange(0, j)),
    decreases s.len() - j,
{
    if j < s.len() {
        lemma_trim_end_quotes_skip(s.drop_last(), j);
        assert(s.drop_last().subrange(0, j) =~= s.subrange(0, j));
    } else {
        assert(s.subrange(0, s.len() as int) =~= s);
    }
}

/// `value` with wrapping quotes removed from both ends.
fn trim_wrapping_quotes(s: &[char]) -> (r: Vec<char>)
    ensures
        r@ == trim_quotes(s@),
{
    let mut i: usize = 0;
    while i < s.len() && is_quote_exec(s[i])
        invariant
            i <= s@.len(),
            forall|k: int| 0 <= k < i ==> is_quote(s@[k]),
        decreases s@.len() - i,
    {
        i = i + 1;
    }
    proof {
        lemma_trim_start_quotes_skip(s@, i as int);
    }
    let mut j: usize = s.len();
    while j > i && is_quote_exec(s[j - 1])
        invariant
            i <= j <= s@.len(),
            forall|k: int| j <= k < s@.len() ==> is_quote(s@[k]),
        decreases j,
    {
        j = j - 1;
    }
    let ghost rest = s@.subrange(i as int, s@.len() as int);
    proof {
        if i == s@.len() {
            assert(rest.len() == 0);
            assert(rest.subrange(0, 0) =~= rest);
        } else {
            assert(!is_quote(s@[i as int]));
            assert(trim_start_quotes(rest) == rest);
        }
        lemma_trim_end_quotes_skip(rest, j - i);
        assert(rest.subrange(0, j - i) =~= s@.subrange(i as int, j as int));
        if j > i {
            assert(!is_quote(s@[j - 1]));
            assert(trim_end_quotes(s@.subrange(i as int, j as int)) == s@.subrange(
                i as int,
                j as int,
            ));
        } else {
            assert(s@.subrange(i as int, j as int).len() == 0);
        }
    }
    slice_chars(s, i, j)
}

fn push_non_empty(values: &mut Vec<String>, value: &[char])
    ensures
        views(final(values)@) == push_non_empty_spec(views(old(values)@), value@),
{
    let t = trim_wrapping_quotes(value);
    if t.len() > 0 {
        let s = string_from_chars(t.as_slice());
        let ghost before = values@;
        values.push(s);
        assert(views(values@) =~= views(before).push(t@));
    }
}

fn normalize_extension(value: &[char]) -> (r: Vec<char>)
    ensures
        r@ == normalize_extension_spec(value@),
{
    let t = trim_wrapping_quotes(value);
    let d = trim_start_matches(t.as_slice(), '.');
    lower_chars(d.as_slice())
}

fn is_field(field: &[char], name: &str) -> (r: bool)
    ensures
        r == (field@ == name@),
{
    let n = chars_of(name);
    crate::text::chars_eq(field, n.as_slice())
}

fn known_field(field: &[char]) -> (r: bool)
    ensures
        r == is_known_field_spec(field@),
{
    proof {
        reveal_strlit("type");
        reveal_strlit("name");
        reveal_strlit("dir");
        reveal_strlit("content");
        assert("type"@ =~= field_type());
        assert("name"@ =~= field_name());
        assert("dir"@ =~= field_dir());
        assert("content"@ =~= field_content());
    }
    is_field(field, "type") || is_field(field, "name") || is_field(field, "dir") || is_field(
        field,
        "content",
    )
}

fn push_field_value(query: &mut FileQuery, field: &[char], value: &[char])
    requires
        is_known_field_spec(field@),
    ensures
        final(query).model() == push_field_spec(old(query).model(), field@, value@),
{
    proof {
        reveal_strlit("type");
        reveal_strlit("name");
        reveal_strlit("dir");
        reveal_strlit("content");
        assert("type"@ =~= field_type());
        assert("name"@ =~= field_name());
        assert("dir"@ =~= field_dir());
        assert("content"@ =~= field_content());
    }
    if is_field(field, "type") {
        let v = normalize_extension(value);
        push_non_empty(&mut query.type_filters, v.as_slice());
    } else if is_field(field, "name") {
        push_non_empty(&mut query.name_filters, value);
    } else if is_field(field, "dir") {
        push_non_empty(&mut query.dir_filters, value);
    } else {
        push_non_empty(&mut query.content_queries, value);
    }
}

fn push_ordinary_term(query: &mut FileQuery, token: &[char])
    ensures
        final(query).model() == push_ordinary(old(query).model(), token@),
{
    push_non_empty(&mut query.ordinary_terms, token);
}

fn tokenize(input: &str) -> (r: Vec<Vec<char>>)
    ensures
        r@.len() == tokens_spec(input@).len(),
        forall|i: int| 0 <= i < r@.len() ==> #[trigger] r@[i]@ == tokens_spec(input@)[i],
{
    let all = chars_of(input);
    let chars = trim_chars(all.as_slice());
    let mut tokens: Vec<Vec<char>> = Vec::new();
    let mut token: Vec<char> = Vec::new();
    let mut in_quotes = false;
    let mut i: usize = 0;
    while i < chars.len()
        invariant
            i <= chars@.len(),
            chars@ == trim_ws(input@),
            scan_chars(chars@.take(i as int)).tokens.len() == tokens@.len(),
            forall|k: int|
                0 <= k < tokens@.len() ==> #[trigger] tokens@[k]@ == scan_chars(
                    chars@.take(i as int),
                ).tokens[k],
            scan_chars(chars@.take(i as int)).token == token@,
            scan_chars(chars@.take(i as int)).in_quotes == in_quotes,
        decreases chars@.len() - i,
    {
        let c = chars[i];
        proof {
            assert(chars@.take(i + 1).drop_last() =~= chars@.take(i as int));
            assert(chars@.take(i + 1).last() == c);
        }
        if is_quote_exec(c) {
            in_quotes = !in_quotes;
        } else if is_whitespace(c) && !in_quotes {
            if token.len() > 0 {
                let mut done: Vec<char> = Vec::new();
                std::mem::swap(&mut done, &mut token);
                tokens.push(done);
            }
        } else {
            token.push(c);
        }
        i = i + 1;
    }
    proof {
        assert(chars@.take(chars@.len() as int) =~= chars@);
    }
    if token.len() > 0 {
        tokens.push(token);
    }
    tokens
}

/// A straight or curly double quote, named character by character.
pub open spec fn is_double_quote_mark(c: char) -> bool {
    c == '"' || c == '\u{201c}' || c == '\u{201d}'
}

/// Characters that neither group nor split words.
pub open spec fn plain_word(w: Seq<char>) -> bool {
    forall|i: int| 0 <= i < w.len() ==> !is_double_quote_mark(#[trigger] w[i]) && !is_ws(w[i])
}

/// Scanning characters that are no quotes, and no white space outside quotes,
/// only extends the current token.
proof fn lemma_scan_extends_token(s: Seq<char>, w: Seq<char>)
    requires
        forall|i: int| 0 <= i < w.len() ==> !is_quote(#[trigger] w[i]) && (!is_ws(w[i]) || scan_chars(s).in_quotes),
    ensures
        scan_chars(s + w).tokens == scan_chars(s).tokens,
        scan_chars(s + w).token == scan_chars(s).token + w,
        scan_chars(s + w).in_quotes == scan_chars(s).in_quotes,
    decreases w.len(),
{
    if w.len() == 0 {
        assert(s + w =~= s);
        assert(scan_chars(s).token + w =~= scan_chars(s).token);
    } else {
        let wd = w.drop_last();
        assert forall|i: int| 0 <= i < wd.len() implies !is_quote(#[trigger] wd[i]) && (!is_ws(wd[i])
            || scan_chars(s).in_quotes) by {
            assert(wd[i] == w[i]);
        }
        lemma_scan_extends_token(s, wd);
        assert((s + w).drop_last() =~= s + wd);
        assert((s + w).last() == w[w.len() - 1]);
        assert(!is_quote(w[w.len() - 1]));
        assert((scan_chars(s).token + wd).push(w[w.len() - 1]) =~= scan_chars(s).token + w);
    }
}

/// A quote character flips whether the scan is inside quotes and keeps the rest.
proof fn lemma_scan_quote(s: Seq<char>, q: char)
    requires
        is_quote(q),
    ensures
        scan_chars(s.push(q)).tokens == scan_chars(s).tokens,
        scan_chars(s.push(q)).token == scan_chars(s).token,
        scan_chars(s.push(q)).in_quotes == !scan_chars(s).in_quotes,
{
    assert(s.push(q).drop_last() =~= s);
    assert(s.push(q).last() == q);
}

/// Any of the three double quotes, straight or curly, opens or closes a group:
/// `name:` followed by a quoted `t u` yields exactly the name filter `t u`,
/// and nothing else, whichever of them opens and closes it.
pub proof fn lemma_quoted_name_value_keeps_words_together(
    open_quote: char,
    close_quote: char,
    t: Seq<char>,
    u: Seq<char>,
)
    requires
        is_double_quote_mark(open_quote),
        is_double_quote_mark(close_quote),
        plain_word(t),
        plain_word(u),
    ensures
        ({
            let input = seq!['n', 'a', 'm', 'e', ':'] + seq![open_quote] + t + seq![' '] + u + seq![close_quote];
            let q = parse_spec(input);
            &&& q.name_filters == seq![t + seq![' '] + u]
            &&& q.ordinary_terms.len() == 0
            &&& q.type_filters.len() == 0
            &&& q.dir_filters.len() == 0
            &&& q.content_queries.len() == 0
        }),
{
    let head = seq!['n', 'a', 'm', 'e', ':'];
    let v = t + seq![' '] + u;
    let p1 = Seq::<char>::empty() + head;
    let p2 = p1.push(open_quote);
    let p3 = p2 + v;
    let input = p3.push(close_quote);
    assert(input =~= seq!['n', 'a', 'm', 'e', ':'] + seq![open_quote] + t + seq![' '] + u + seq![close_quote]);
    // The text has no surrounding white space.
    assert(input[0] == 'n');
    assert(!is_ws(input[0]));
    assert(trim_start_ws(input) == input);
    assert(input.last() == close_quote);
    assert(!is_ws(close_quote));
    assert(trim_end_ws(input) == input);
    assert(trim_ws(input) == input);
    // Tokenizing: the field name, the opening quote, the grouped words, the closing quote.
    let empty = Seq::<char>::empty();
    assert(scan_chars(empty).tokens.len() == 0);
    assert forall|i: int| 0 <= i < head.len() implies !is_quote(#[trigger] head[i]) && (!is_ws(head[i])
        || scan_chars(empty).in_quotes) by {
        assert(head[i] == 'n' || head[i] == 'a' || head[i] == 'm' || head[i] == 'e' || head[i] == ':');
    }
    lemma_scan_extends_token(empty, head);
    lemma_scan_quote(p1, open_quote);
    assert(scan_chars(p2).in_quotes);
    assert forall|i: int| 0 <= i < v.len() implies !is_quote(#[trigger] v[i]) && (!is_ws(v[i])
        || scan_chars(p2).in_quotes) by {
        if i < t.len() {
            assert(v[i] == t[i]);
        } else if i > t.len() {
            assert(v[i] == u[i - t.len() - 1]);
        } else {
            assert(v[i] == ' ');
        }
    }
    lemma_scan_extends_token(p2, v);
    lemma_scan_quote(p3, close_quote);
    let st = scan_chars(input);
    assert(st.tokens.len() == 0);
    assert(scan_chars(empty).token =~= Seq::<char>::empty());
    let tok = head + v;
    assert(st.token =~= tok);
    let toks = tokens_spec(input);
    assert(toks =~= seq![tok]);
    // Reading the one token: `name` before the first colon, the words after it.
    assert(tok[4] == ':');
    assert(first_index_of(tok, ':') == Some(4int)) by {
        assert(0 <= 4 < tok.len() && tok[4] == ':');
        let k = choose|k: int| 0 <= k < tok.len() && tok[k] == ':' && forall|j: int| 0 <= j < k ==> tok[j] != ':';
        assert(tok[0] != ':' && tok[1] != ':' && tok[2] != ':' && tok[3] != ':');
        assert(k == 4);
    }
    assert(tok.take(4) =~= seq!['n', 'a', 'm', 'e']);
    assert(lower(tok.take(4)) =~= field_name());
    assert(tok.skip(5) =~= v);
    assert(v.len() > 0);
    assert(is_known_field_spec(field_name()));
    // The words keep no quote at either end.
    assert(v[t.len() as int] == ' ');
    assert(v[0] == ' ' || v[0] == t[0]);
    assert(!is_quote(v[0]));
    assert(trim_start_quotes(v) == v);
    assert(v.last() == ' ' || v.last() == u[u.len() - 1]);
    assert(!is_quote(v.last()));
    assert(trim_end_quotes(v) == v);
    let q = push_field_spec(empty_query(), field_name(), v);
    assert(parse_from(toks, 1, q) == q);
    assert(parse_spec(input) == q);
    assert(q.name_filters =~= seq![v]);
}

impl FileQuery {
    /// Parses a query text.
    pub fn parse(input: &str) -> (r: Self)
        ensures
            r.model() == parse_spec(input@),
    {
        let mut query = FileQuery::default();
        let tokens = tokenize(input);
        let ghost toks = tokens_spec(input@);
        let mut index: usize = 0;
        while index < tokens.len()
            invariant
                index <= tokens@.len() + 1,
                tokens@.len() == toks.len(),
                forall|i: int| 0 <= i < tokens@.len() ==> #[trigger] tokens@[i]@ == toks[i],
                toks == tokens_spec(input@),
                parse_from(toks, index as int, query.model()) == parse_spec(input@),
            decreases tokens@.len() + 1 - index,
        {
            let token = &tokens[index];
            let ghost t = toks[index as int];
            assert(token@ == t);
            index = index + 1;
            match find_char(token.as_slice(), ':') {
                None => {
                    push_ordinary_term(&mut query, token.as_slice());
                },
                Some(k) => {
                    let field_raw = slice_chars(token.as_slice(), 0, k);
                    let field = lower_chars(field_raw.as_slice());
                    let value = slice_chars(token.as_slice(), k + 1, token.len());
                    proof {
                        assert(field_raw@ =~= t.take(k as int));
                        assert(value@ =~= t.skip(k + 1));
                    }
                    if value.len() == 0 {
                        if known_field(field.as_slice()) && index < tokens.len() {
                            let next = &tokens[index];
                            assert(next@ == toks[index as int]);
                            index = index + 1;
                            push_field_value(&mut query, field.as_slice(), next.as_slice());
                        } else {
                            push_ordinary_term(&mut query, token.as_slice());
                        }
                    } else if known_field(field.as_slice()) {
                        push_field_value(&mut query, field.as_slice(), value.as_slice());
                    } else {
                        push_ordinary_term(&mut query, token.as_slice());
                    }
                },
            }
        }
        query
    }

    /// Whether the query holds a `content:` value.
    pub fn has_content_query(&self) -> (r: bool)
        ensures
            r == (self.content_queries@.len() > 0),
    {
        self.content_queries.len() > 0
    }

    /// Whether the query constrains names or paths at all.
    pub fn has_name_path_constraints(&self) -> (r: bool)
        ensures
            r == (self.ordinary_terms@.len() > 0 || self.type_filters@.len() > 0
                || self.name_filters@.len() > 0 || self.dir_filters@.len() > 0),
    {
        self.ordinary_terms.len() > 0 || self.type_filters.len() > 0 || self.name_filters.len() > 0
            || self.dir_filters.len() > 0
    }
}

} // verus!
