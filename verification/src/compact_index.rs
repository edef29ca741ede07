//! Compact, arena-backed entry tables and the candidate indexes built over them.
//!
//! Every string of an entry lives in one character arena and is addressed by a
//! packed `(start, len)` range; the name, parent, extension and root of an entry
//! reuse the slice of its path where they occur in it, and equal strings are
//! stored once.

use vstd::prelude::*;
use vstd::layout::size_of;
use crate::index_entry::{
    build_search_text, search_text_spec, ContentIndexState, IndexedEntry, IndexedEntryKind,
};
use crate::file_query::{parse_spec, FileQuery, QueryModel};
use crate::text::{
    has_char, seq_lt, lemma_seq_lt_irreflexive, lemma_seq_lt_transitive, lemma_seq_lt_total, lex_less,
    ascii_lower_char, ascii_lowercase, chars_of, contains_chars, contains_seq, has_prefix, lower, lower_char, lower_chars, occurs_at, occurs_at_exec, slice_chars, str_eq,
    starts_with_chars, string_from_chars, trim_end_char, trim_start_char, trim_start_matches,
};

verus! {

broadcast use vstd::string::group_string_axioms, vstd::layout::layout_of_primitives;

// ---------------------------------------------------------------------------
// Identifiers
// ---------------------------------------------------------------------------

/// Dense identifier of an entry: its position in the table.
#[derive(Debug, Clone, Copy, PartialEq, Eq, PartialOrd, Ord, Hash, Structural)]
pub struct EntryId(u32);

impl EntryId {
    pub closed spec fn value(self) -> nat {
        self.0 as nat
    }

    pub fn as_usize(self) -> (r: usize)
        ensures
            r == self.value(),
    {
        self.0 as usize
    }

    /// The identifier `value`, when it fits in 32 bits.
    pub fn from_usize(value: usize) -> (r: Option<Self>)
        ensures
            r is None <==> value > u32::MAX,
            match r {
                Some(id) => id.value() == value,
                None => value > u32::MAX,
            },
    {
        if value <= u32::MAX as usize {
            Some(EntryId(value as u32))
        } else {
            None
        }
    }
}

/// Two identifiers are equal exactly when their values are.
pub broadcast proof fn lemma_entry_id_value_injective(a: EntryId, b: EntryId)
    ensures
        (#[trigger] a.value() == #[trigger] b.value()) <==> a == b,
{
}

/// An identifier's value fits in 32 bits.
pub broadcast proof fn lemma_entry_id_value_bound(id: EntryId)
    ensures
        #[trigger] id.value() <= u32::MAX,
{
}


/// Hands out identifiers 0, 1, 2, ... (staying at `u32::MAX` once reached).
#[derive(Debug, Clone)]
pub struct EntryIdAllocator {
    next: u32,
}

impl Default for EntryIdAllocator {
    fn default() -> (r: Self)
        ensures
            r.next_value() == 0,
    {
        EntryIdAllocator { next: 0 }
    }
}

impl EntryIdAllocator {
    pub closed spec fn next_value(&self) -> nat {
        self.next as nat
    }

    pub fn next_id(&mut self) -> (r: EntryId)
        ensures
            r.value() == old(self).next_value(),
            final(self).next_value() == (if old(self).next_value() < u32::MAX {
                old(self).next_value() + 1
            } else {
                u32::MAX as nat
            }),
    {
        let id = EntryId(self.next);
        self.next = self.next.saturating_add(1);
        id
    }

    pub fn len(&self) -> (r: usize)
        ensures
            r == self.next_value(),
    {
        self.next as usize
    }

    pub fn is_empty(&self) -> (r: bool)
        ensures
            r == (self.next_value() == 0),
    {
        self.next == 0
    }
}

// ---------------------------------------------------------------------------
// Packed ranges and the character arena
// ---------------------------------------------------------------------------

/// The start that marks a field as absent.
const MISSING_RANGE_START: u32 = u32::MAX;

/// A `(start, len)` range of characters in the arena.
#[derive(Debug, Clone, Copy, PartialEq, Eq, Hash, Structural)]
pub struct PackedTextRange {
    start: u32,
    len: u32,
}

impl PackedTextRange {
    pub closed spec fn is_missing_spec(self) -> bool {
        self.start == MISSING_RANGE_START
    }

    fn missing() -> (r: Self)
        ensures
            r.is_missing_spec(),
    {
        PackedTextRange { start: MISSING_RANGE_START, len: 0 }
    }

    fn is_missing(self) -> (r: bool)
        ensures
            r == self.is_missing_spec(),
    {
        self.start == MISSING_RANGE_START
    }
}

/// The text a range denotes in an arena: none for the absent marker or a range
/// that leaves the arena.
pub closed spec fn range_text(arena: Seq<char>, r: PackedTextRange) -> Option<Seq<char>> {
    if r.start == MISSING_RANGE_START {
        None
    } else if r.start + r.len <= arena.len() {
        Some(arena.subrange(r.start as int, r.start + r.len))
    } else {
        None
    }
}

spec fn is_prefix(a: Seq<char>, b: Seq<char>) -> bool {
    a.len() <= b.len() && b.subrange(0, a.len() as int) == a
}

proof fn lemma_prefix_trans(a: Seq<char>, b: Seq<char>, c: Seq<char>)
    requires
        is_prefix(a, b),
        is_prefix(b, c),
    ensures
        is_prefix(a, c),
{
    assert(c.subrange(0, a.len() as int) =~= b.subrange(0, a.len() as int));
}

spec fn range_fits(arena: Seq<char>, r: PackedTextRange) -> bool {
    r.start == MISSING_RANGE_START || r.start + r.len <= arena.len()
}

proof fn lemma_range_text_stable(arena: Seq<char>, longer: Seq<char>, r: PackedTextRange)
    requires
        is_prefix(arena, longer),
        range_fits(arena, r),
    ensures
        range_text(longer, r) == range_text(arena, r),
        range_fits(longer, r),
{
    if r.start != MISSING_RANGE_START {
        assert(longer.subrange(r.start as int, r.start + r.len) =~= arena.subrange(
            r.start as int,
            r.start + r.len,
        ));
    }
}

/// Number of bytes of `c` in UTF-8.
pub open spec fn char_utf8_len(c: char) -> nat {
    if (c as u32) < 0x80 {
        1
    } else if (c as u32) < 0x800 {
        2
    } else if (c as u32) < 0x10000 {
        3
    } else {
        4
    }
}

/// Number of bytes of a text in UTF-8.
pub open spec fn text_bytes(s: Seq<char>) -> nat
    decreases s.len(),
{
    if s.len() == 0 {
        0
    } else {
        text_bytes(s.drop_last()) + char_utf8_len(s.last())
    }
}

/// `x`, or `usize::MAX` when it does not fit (`saturating_add` chains).
pub open spec fn saturate(x: int) -> int {
    if x > usize::MAX {
        usize::MAX as int
    } else {
        x
    }
}

proof fn lemma_text_bytes_at_least_len(s: Seq<char>)
    ensures
        text_bytes(s) >= s.len(),
    decreases s.len(),
{
    if s.len() > 0 {
        lemma_text_bytes_at_least_len(s.drop_last());
    }
}

proof fn lemma_text_bytes_append(a: Seq<char>, b: Seq<char>)
    ensures
        text_bytes(a + b) == text_bytes(a) + text_bytes(b),
    decreases b.len(),
{
    if b.len() == 0 {
        assert(a + b =~= a);
    } else {
        lemma_text_bytes_append(a, b.drop_last());
        assert((a + b).drop_last() =~= a + b.drop_last());
    }
}

/// `usize::saturating_mul`.
pub(crate) fn saturating_mul(a: usize, b: usize) -> (r: usize)
    ensures
        r == saturate(a * b),
{
    match a.checked_mul(b) {
        Some(x) => x,
        None => usize::MAX,
    }
}

fn utf8_len(c: char) -> (r: usize)
    ensures
        r == char_utf8_len(c),
{
    let v = c as u32;
    if v < 0x80 {
        1
    } else if v < 0x800 {
        2
    } else if v < 0x10000 {
        3
    } else {
        4
    }
}

/// The UTF-8 length of a text, saturated at `usize::MAX`.
pub(crate) fn text_byte_len(s: &[char]) -> (r: usize)
    ensures
        r == saturate(text_bytes(s@) as int),
{
    let mut total: usize = 0;
    let mut i: usize = 0;
    while i < s.len()
        invariant
            i <= s@.len(),
            total == saturate(text_bytes(s@.take(i as int)) as int),
        decreases s@.len() - i,
    {
        proof {
            assert(s@.take(i + 1).drop_last() =~= s@.take(i as int));
        }
        total = total.saturating_add(utf8_len(s[i]));
        i = i + 1;
    }
    proof {
        assert(s@.take(s@.len() as int) =~= s@);
    }
    total
}

/// Errors of building a compact index past its packed limits.
#[derive(Debug, Clone, PartialEq, Eq, Structural)]
pub enum CompactIndexBuildError {
    TooManyEntries { count: usize },
    ArenaTooLarge { requested_bytes: usize },
    DepthTooLarge { depth: usize },
    TooManySegmentPostings { count: usize },
    TooManyPathSegmentBuckets { count: usize },
    TooManyNameNgramBytes { count: usize },
}

/// The number of hash chains the arena builder spreads stored values over.
const INTERN_BUCKETS: usize = 131072;

/// The end of a hash chain.
const NO_SLOT: usize = usize::MAX;

/// The arena under construction, with the ranges of the values stored so far
/// chained by text fingerprint so that a value stored before is found again.
struct PackedArenaBuilder {
    arena: Vec<char>,
    arena_bytes: usize,
    stored: Vec<PackedTextRange>,
    arena_limit: usize,
    heads: Vec<usize>,
    next: Vec<usize>,
}

impl PackedArenaBuilder {
    spec fn wf(&self) -> bool {
        &&& self.arena@.len() <= self.arena_bytes <= self.arena_limit
        &&& self.arena_limit < MISSING_RANGE_START
        &&& self.arena_bytes == text_bytes(self.arena@)
        &&& forall|i: int|
            0 <= i < self.stored@.len() ==> {
                let r = #[trigger] self.stored@[i];
                r.start != MISSING_RANGE_START && r.start + r.len <= self.arena@.len()
            }
        &&& self.heads@.len() == INTERN_BUCKETS
        &&& self.next@.len() == self.stored@.len()
        &&& forall|b: int| 0 <= b < self.heads@.len() ==> #[trigger] self.heads@[b] == NO_SLOT || self.heads@[b] < self.stored@.len()
        &&& forall|i: int| 0 <= i < self.next@.len() ==> #[trigger] self.next@[i] == NO_SLOT || self.next@[i] < i
    }

    /// The arena of `old` is a prefix of the current one.
    spec fn extends(&self, old: &Self) -> bool {
        &&& is_prefix(old.arena@, self.arena@)
        &&& self.arena_limit == old.arena_limit
    }

    fn with_limit(arena_limit: usize) -> (r: Self)
        ensures
            r.wf(),
            r.arena@.len() == 0,
            r.stored@.len() == 0,
            r.arena_limit == (if arena_limit < MISSING_RANGE_START - 1 {
                arena_limit as int
            } else {
                MISSING_RANGE_START - 1
            }),
    {
        let cap: usize = (MISSING_RANGE_START - 1) as usize;
        let limit = if arena_limit < cap {
            arena_limit
        } else {
            cap
        };
        let mut heads: Vec<usize> = Vec::new();
        while heads.len() < INTERN_BUCKETS
            invariant
                heads@.len() <= INTERN_BUCKETS,
                forall|b: int| 0 <= b < heads@.len() ==> #[trigger] heads@[b] == NO_SLOT,
            decreases INTERN_BUCKETS - heads@.len(),
        {
            heads.push(NO_SLOT);
        }
        let r = PackedArenaBuilder {
            arena: Vec::new(),
            arena_bytes: 0,
            stored: Vec::new(),
            arena_limit: limit,
            heads,
            next: Vec::new(),
        };
        assert(r.arena@ =~= Seq::<char>::empty());
        r
    }

    /// Whether `arena[start..start + value.len()]` equals `value`.
    fn slice_equals(&self, range: PackedTextRange, value: &[char]) -> (r: bool)
        requires
            range.start != MISSING_RANGE_START,
            range.start + range.len <= self.arena@.len(),
        ensures
            r == (range_text(self.arena@, range) == Some(value@)),
    {
        if range.len as usize != value.len() {
            return false;
        }
        let start = range.start as usize;
        let alen = self.arena.len();
        let mut i: usize = 0;
        while i < value.len()
            invariant
                alen == self.arena@.len(),
                i <= value@.len(),
                value@.len() == range.len,
                start == range.start,
                start + range.len <= self.arena@.len(),
                forall|k: int| 0 <= k < i ==> self.arena@[start + k] == value@[k],
            decreases value@.len() - i,
        {
            if self.arena[start + i] != value[i] {
                assert(self.arena@.subrange(start as int, start + range.len)[i as int]
                    != value@[i as int]);
                return false;
            }
            i = i + 1;
        }
        assert(self.arena@.subrange(start as int, start + range.len) =~= value@);
        true
    }

    /// Stores `value` once: a value stored before is found again.
    fn store(&mut self, value: &[char]) -> (r: Result<PackedTextRange, CompactIndexBuildError>)
        requires
            old(self).wf(),
        ensures
            final(self).wf(),
            final(self).extends(old(self)),
            final(self).arena_bytes <= old(self).arena_bytes + text_bytes(value@),
            final(self).stored@.len() <= old(self).stored@.len() + 1,
            match r {
                Ok(range) => range_text(final(self).arena@, range) == Some(value@),
                Err(e) => {
                    &&& e matches CompactIndexBuildError::ArenaTooLarge { requested_bytes }
                    &&& requested_bytes > old(self).arena_limit
                    &&& requested_bytes <= old(self).arena_bytes + text_bytes(value@)
                },
            },
            old(self).arena_bytes + text_bytes(value@) <= old(self).arena_limit ==> r is Ok,
    {
        let bucket = (text_fingerprint(value) as usize) % INTERN_BUCKETS;
        let mut slot: usize = self.heads[bucket];
        while slot != NO_SLOT
            invariant
                self.wf(),
                slot == NO_SLOT || slot < self.stored@.len(),
                self.arena@ == old(self).arena@,
                self.stored@ == old(self).stored@,
                self.arena_bytes == old(self).arena_bytes,
                self.arena_limit == old(self).arena_limit,
            decreases (if slot == NO_SLOT {
                0
            } else {
                slot + 1
            }),
        {
            let range = self.stored[slot];
            if self.slice_equals(range, value) {
                proof {
                    assert(self.arena@.subrange(0, self.arena@.len() as int) =~= self.arena@);
                }
                return Ok(range);
            }
            slot = self.next[slot];
        }
        proof {
            assert(self.arena@.subrange(0, self.arena@.len() as int) =~= self.arena@);
        }
        let value_bytes = text_byte_len(value);
        let requested_bytes = self.arena_bytes.saturating_add(value_bytes);
        if requested_bytes > self.arena_limit {
            return Err(CompactIndexBuildError::ArenaTooLarge { requested_bytes });
        }
        proof {
            lemma_text_bytes_at_least_len(value@);
        }
        let range = PackedTextRange { start: self.arena.len() as u32, len: value.len() as u32 };
        let ghost before = self.arena@;
        let mut k: usize = 0;
        while k < value.len()
            invariant
                k <= value@.len(),
                self.arena@ == before + value@.take(k as int),
                before.len() + value@.len() <= self.arena_limit,
                before == old(self).arena@,
                self.stored@ == old(self).stored@,
                self.arena_bytes == old(self).arena_bytes,
                self.arena_limit == old(self).arena_limit,
                self.heads@ == old(self).heads@,
                self.next@ == old(self).next@,
                bucket < INTERN_BUCKETS,
            decreases value@.len() - k,
        {
            self.arena.push(value[k]);
            k = k + 1;
            assert(self.arena@ =~= before + value@.take(k as int));
        }
        proof {
            assert(value@.take(value@.len() as int) =~= value@);
            lemma_text_bytes_append(before, value@);
            assert(self.arena@.subrange(0, before.len() as int) =~= before);
            assert(self.arena@.subrange(range.start as int, range.start + range.len) =~= value@);
        }
        self.arena_bytes = requested_bytes;
        let ghost stored_before = self.stored@;
        let ghost next_before = self.next@;
        let ghost heads_before = self.heads@;
        let new_slot = self.stored.len();
        let previous_head = self.heads[bucket];
        self.stored.push(range);
        self.next.push(previous_head);
        self.heads.set(bucket, new_slot);
        proof {
            assert forall|i: int| 0 <= i < self.stored@.len() implies {
                let r = #[trigger] self.stored@[i];
                r.start != MISSING_RANGE_START && r.start + r.len <= self.arena@.len()
            } by {
                if i < self.stored@.len() - 1 {
                    assert(self.stored@[i] == stored_before[i]);
                }
            }
            assert forall|b: int| 0 <= b < self.heads@.len() implies #[trigger] self.heads@[b] == NO_SLOT || self.heads@[b]
                < self.stored@.len() by {
                if b != bucket {
                    assert(self.heads@[b] == heads_before[b]);
                }
            }
            assert forall|i: int| 0 <= i < self.next@.len() implies #[trigger] self.next@[i] == NO_SLOT || self.next@[i] < i by {
                if i < next_before.len() {
                    assert(self.next@[i] == next_before[i]);
                }
            }
        }
        Ok(range)
    }
}

/// Last position at which `needle` occurs in `hay` (`str::rfind`).
fn rfind_chars(hay: &[char], needle: &[char]) -> (r: Option<usize>)
    ensures
        match r {
            Some(i) => occurs_at(hay@, needle@, i as int) && forall|j: int|
                i < j ==> !occurs_at(hay@, needle@, j),
            None => forall|j: int| !occurs_at(hay@, needle@, j),
        },
{
    if needle.len() > hay.len() {
        return None;
    }
    let mut i: usize = hay.len() - needle.len();
    loop
        invariant
            i + needle@.len() <= hay@.len(),
            forall|j: int| i < j ==> !occurs_at(hay@, needle@, j),
        decreases i,
    {
        if occurs_at_exec(hay, needle, i) {
            return Some(i);
        }
        if i == 0 {
            return None;
        }
        i = i - 1;
    }
}

impl PackedArenaBuilder {
    /// Reuses the last occurrence of `value` inside the stored `path`, else stores it.
    fn store_path_slice_or_value(
        &mut self,
        path_range: PackedTextRange,
        path: &[char],
        value: &[char],
    ) -> (r: Result<PackedTextRange, CompactIndexBuildError>)
        requires
            old(self).wf(),
            range_text(old(self).arena@, path_range) == Some(path@),
        ensures
            final(self).wf(),
            final(self).extends(old(self)),
            final(self).arena_bytes <= old(self).arena_bytes + text_bytes(value@),
            final(self).stored@.len() <= old(self).stored@.len() + 1,
            contains_seq(path@, value@) ==> final(self).arena_bytes == old(self).arena_bytes
                && final(self).stored@.len() == old(self).stored@.len(),
            match r {
                Ok(range) => range_text(final(self).arena@, range) == Some(value@),
                Err(e) => {
                    &&& e matches CompactIndexBuildError::ArenaTooLarge { requested_bytes }
                    &&& requested_bytes > old(self).arena_limit
                    &&& requested_bytes <= old(self).arena_bytes + text_bytes(value@)
                },
            },
            old(self).arena_bytes + text_bytes(value@) <= old(self).arena_limit ==> r is Ok,
    {
        match rfind_chars(path, value) {
            Some(offset) => {
                let range = PackedTextRange {
                    start: path_range.start + offset as u32,
                    len: value.len() as u32,
                };
                proof {
                    assert(self.arena@.subrange(0, self.arena@.len() as int) =~= self.arena@);
                    assert(self.arena@.subrange(range.start as int, range.start + range.len)
                        =~= path@.subrange(offset as int, offset + value@.len()));
                }
                Ok(range)
            },
            None => self.store(value),
        }
    }

    /// An empty value is absent; any other is a slice of the path or stored.
    fn store_optional_path_slice(
        &mut self,
        path_range: PackedTextRange,
        path: &[char],
        value: &[char],
    ) -> (r: Result<PackedTextRange, CompactIndexBuildError>)
        requires
            old(self).wf(),
            range_text(old(self).arena@, path_range) == Some(path@),
        ensures
            final(self).wf(),
            final(self).extends(old(self)),
            final(self).arena_bytes <= old(self).arena_bytes + text_bytes(value@),
            final(self).stored@.len() <= old(self).stored@.len() + 1,
            contains_seq(path@, value@) ==> final(self).arena_bytes == old(self).arena_bytes
                && final(self).stored@.len() == old(self).stored@.len(),
            match r {
                Ok(range) => range_text(final(self).arena@, range) == (if value@.len() == 0 {
                    None
                } else {
                    Some(value@)
                }),
                Err(e) => {
                    &&& e matches CompactIndexBuildError::ArenaTooLarge { requested_bytes }
                    &&& requested_bytes > old(self).arena_limit
                    &&& requested_bytes <= old(self).arena_bytes + text_bytes(value@)
                },
            },
            r matches Ok(range) ==> range_fits(final(self).arena@, range),
            old(self).arena_bytes + text_bytes(value@) <= old(self).arena_limit ==> r is Ok,
    {
        if value.len() == 0 {
            proof {
                assert(self.arena@.subrange(0, self.arena@.len() as int) =~= self.arena@);
            }
            Ok(PackedTextRange::missing())
        } else {
            self.store_path_slice_or_value(path_range, path, value)
        }
    }
}

// ---------------------------------------------------------------------------
// Entries and the entry table
// ---------------------------------------------------------------------------

/// The fields of an entry as plain values.
pub struct EntryModel {
    pub path: Seq<char>,
    pub name: Seq<char>,
    pub kind: IndexedEntryKind,
    pub parent: Seq<char>,
    pub extension: Option<Seq<char>>,
    pub depth: int,
    pub root: Seq<char>,
    pub modified_ms: Option<i64>,
    pub size_bytes: Option<u64>,
    pub search_text: Seq<char>,
    pub content_index_state: ContentIndexState,
}

/// The fields of an `IndexedEntry` as plain values.
pub open spec fn entry_view(e: IndexedEntry) -> EntryModel {
    EntryModel {
        path: e.path@,
        name: e.name@,
        kind: e.kind,
        parent: e.parent@,
        extension: match e.extension {
            Some(x) => Some(x@),
            None => None,
        },
        depth: e.depth as int,
        root: e.root@,
        modified_ms: e.modified_ms,
        size_bytes: e.size_bytes,
        search_text: e.search_text@,
        content_index_state: e.content_index_state,
    }
}

/// What a table keeps of an entry: an empty extension reads back as none, and an
/// empty search text as the standard one derived from name and path.
pub open spec fn stored_model(e: IndexedEntry) -> EntryModel {
    EntryModel {
        path: e.path@,
        name: e.name@,
        kind: e.kind,
        parent: e.parent@,
        extension: match e.extension {
            Some(x) => if x@.len() > 0 {
                Some(x@)
            } else {
                None
            },
            None => None,
        },
        depth: e.depth as int,
        root: e.root@,
        modified_ms: e.modified_ms,
        size_bytes: e.size_bytes,
        search_text: if e.search_text@.len() == 0 {
            search_text_spec(e.name@, e.path@)
        } else {
            e.search_text@
        },
        content_index_state: e.content_index_state,
    }
}

/// Law: an entry with a non-empty search text and no empty extension is stored
/// as it is, so the table gives back exactly that entry's fields.
pub proof fn lemma_stored_model_keeps_the_entry(e: IndexedEntry)
    requires
        e.search_text@.len() > 0,
        e.extension matches Some(x) ==> x@.len() > 0,
    ensures
        stored_model(e) == entry_view(e),
{
}

/// An entry whose fields a table keeps unchanged.
pub open spec fn is_normalized_entry(e: IndexedEntry) -> bool {
    &&& (e.extension matches Some(x) ==> x@.len() > 0)
    &&& e.search_text@.len() > 0
}

/// A table keeps an entry unchanged when its extension, if any, is non-empty
/// and its search text is non-empty: materializing it gives back its fields.
pub proof fn lemma_stored_model_normalized(e: IndexedEntry)
    requires
        is_normalized_entry(e),
    ensures
        stored_model(e) == entry_view(e),
{
}

/// Law: a table built from normalized entries holds each of them unchanged,
/// in order, so that materializing identifier `i` gives back entry `i`.
pub proof fn lemma_table_keeps_normalized_entries(entries: Seq<IndexedEntry>, models: Seq<EntryModel>)
    requires
        models.len() == entries.len(),
        forall|i: int| 0 <= i < entries.len() ==> #[trigger] models[i] == stored_model(entries[i]),
        forall|i: int| 0 <= i < entries.len() ==> is_normalized_entry(#[trigger] entries[i]),
    ensures
        forall|i: int| 0 <= i < entries.len() ==> #[trigger] models[i] == entry_view(entries[i]),
{
    assert forall|i: int| 0 <= i < entries.len() implies #[trigger] models[i] == entry_view(entries[i]) by {
        lemma_stored_model_normalized(entries[i]);
    }
}

/// Bytes that storing every field of an entry separately would take.
pub open spec fn entry_bytes(e: IndexedEntry) -> nat {
    text_bytes(e.path@) + text_bytes(e.name@) + text_bytes(e.parent@) + match e.extension {
        Some(x) => text_bytes(x@),
        None => 0,
    } + text_bytes(e.root@) + text_bytes(e.search_text@)
}

pub open spec fn entries_bytes(s: Seq<IndexedEntry>) -> nat
    decreases s.len(),
{
    if s.len() == 0 {
        0
    } else {
        entries_bytes(s.drop_last()) + entry_bytes(s.last())
    }
}

/// The arena limit that a requested one comes to (ranges must stay below the
/// absent marker).
pub open spec fn effective_arena_limit(limit: usize) -> int {
    if limit < u32::MAX - 1 {
        limit as int
    } else {
        u32::MAX - 1
    }
}

/// Inputs on which a build cannot fail: few enough entries, depths that fit in
/// 32 bits, and strings that fit in the arena even without sharing.
pub open spec fn build_fits(s: Seq<IndexedEntry>, limit: usize) -> bool {
    &&& s.len() <= u32::MAX
    &&& forall|i: int| 0 <= i < s.len() ==> #[trigger] s[i].depth <= u32::MAX
    &&& entries_bytes(s) <= effective_arena_limit(limit)
}

proof fn lemma_entries_bytes_prefix(s: Seq<IndexedEntry>, i: int)
    requires
        0 <= i <= s.len(),
    ensures
        entries_bytes(s.take(i)) <= entries_bytes(s),
    decreases s.len() - i,
{
    if i < s.len() {
        lemma_entries_bytes_prefix(s, i + 1);
        assert(s.take(i + 1).drop_last() =~= s.take(i));
    } else {
        assert(s.take(i) =~= s);
    }
}

/// One entry of a compact table: metadata inline, strings as arena ranges.
#[derive(Debug, Clone, Copy, PartialEq, Eq)]
pub struct CompactEntry {
    pub id: EntryId,
    path: PackedTextRange,
    name: PackedTextRange,
    pub kind: IndexedEntryKind,
    parent: PackedTextRange,
    extension: PackedTextRange,
    pub depth: u32,
    root: PackedTextRange,
    pub modified_ms: Option<i64>,
    pub size_bytes: Option<u64>,
    search_text: PackedTextRange,
    pub content_index_state: ContentIndexState,
}

impl CompactEntry {
    pub closed spec fn path_range(self) -> PackedTextRange {
        self.path
    }

    pub closed spec fn name_range(self) -> PackedTextRange {
        self.name
    }

    pub closed spec fn parent_range(self) -> PackedTextRange {
        self.parent
    }

    pub closed spec fn extension_range(self) -> PackedTextRange {
        self.extension
    }

    pub closed spec fn root_range(self) -> PackedTextRange {
        self.root
    }

    pub closed spec fn search_text_range(self) -> PackedTextRange {
        self.search_text
    }
}

pub open spec fn text_or_empty(t: Option<Seq<char>>) -> Seq<char> {
    match t {
        Some(x) => x,
        None => Seq::empty(),
    }
}

/// The fields that an entry's ranges denote in an arena.
pub closed spec fn entry_model(arena: Seq<char>, e: CompactEntry) -> EntryModel {
    let path = text_or_empty(range_text(arena, e.path));
    let name = text_or_empty(range_text(arena, e.name));
    EntryModel {
        path,
        name,
        kind: e.kind,
        parent: text_or_empty(range_text(arena, e.parent)),
        extension: range_text(arena, e.extension),
        depth: e.depth as int,
        root: text_or_empty(range_text(arena, e.root)),
        modified_ms: e.modified_ms,
        size_bytes: e.size_bytes,
        search_text: match range_text(arena, e.search_text) {
            Some(t) => t,
            None => search_text_spec(name, path),
        },
        content_index_state: e.content_index_state,
    }
}

spec fn entry_fits(arena: Seq<char>, e: CompactEntry) -> bool {
    &&& range_text(arena, e.path) is Some
    &&& range_text(arena, e.name) is Some
    &&& range_fits(arena, e.parent)
    &&& range_fits(arena, e.extension)
    &&& range_fits(arena, e.root)
    &&& range_fits(arena, e.search_text)
}

proof fn lemma_entry_stable(arena: Seq<char>, longer: Seq<char>, e: CompactEntry)
    requires
        is_prefix(arena, longer),
        entry_fits(arena, e),
    ensures
        entry_fits(longer, e),
        entry_model(longer, e) == entry_model(arena, e),
{
    lemma_range_text_stable(arena, longer, e.path);
    lemma_range_text_stable(arena, longer, e.name);
    lemma_range_text_stable(arena, longer, e.parent);
    lemma_range_text_stable(arena, longer, e.extension);
    lemma_range_text_stable(arena, longer, e.root);
    lemma_range_text_stable(arena, longer, e.search_text);
}

proof fn lemma_range_stable_some(arena: Seq<char>, longer: Seq<char>, r: PackedTextRange)
    requires
        is_prefix(arena, longer),
        range_text(arena, r) is Some,
    ensures
        range_text(longer, r) == range_text(arena, r),
        range_fits(longer, r),
{
    lemma_range_text_stable(arena, longer, r);
}

/// Packs one entry into the arena.
proof fn lemma_text_bytes_concat(a: Seq<char>, b: Seq<char>)
    ensures
        text_bytes(a + b) == text_bytes(a) + text_bytes(b),
    decreases b.len(),
{
    if b.len() > 0 {
        lemma_text_bytes_concat(a, b.drop_last());
        assert((a + b).drop_last() =~= a + b.drop_last());
        assert((a + b).last() == b.last());
    } else {
        assert(a + b =~= a);
    }
}

/// The text a range denotes weighs no more than the whole arena.
proof fn lemma_range_text_bytes(arena: Seq<char>, range: PackedTextRange)
    requires
        range_text(arena, range) is Some,
    ensures
        text_bytes(range_text(arena, range)->0) <= text_bytes(arena),
{
    let t = range_text(arena, range)->0;
    let s = range.start as int;
    let e = s + range.len;
    assert(0 <= s <= e <= arena.len());
    assert(t =~= arena.subrange(s, e));
    let a = arena.subrange(0, s);
    let c = arena.subrange(e, arena.len() as int);
    assert(arena =~= a + t + c);
    lemma_text_bytes_concat(a, t);
    lemma_text_bytes_concat(a + t, c);
}

/// The bytes a field adds to the pool: none when it is a slice of the path.
pub open spec fn field_cost(path: Seq<char>, v: Seq<char>) -> nat {
    if contains_seq(path, v) {
        0
    } else {
        text_bytes(v)
    }
}

/// The pool values a field adds: none when it is a slice of the path.
pub open spec fn field_slots(path: Seq<char>, v: Seq<char>) -> nat {
    if contains_seq(path, v) {
        0
    } else {
        1
    }
}

pub open spec fn extension_text(e: IndexedEntry) -> Seq<char> {
    match e.extension {
        Some(x) => x@,
        None => Seq::empty(),
    }
}

/// The entry keeps a search text of its own: not empty and not the one built
/// from its name and path.
pub open spec fn custom_search_text(e: IndexedEntry) -> bool {
    e.search_text@.len() > 0 && e.search_text@ != search_text_spec(e.name@, e.path@)
}

/// The most bytes packing an entry adds to the pool: its path, each of name,
/// parent, extension and root that is no slice of the path, and a custom
/// search text.
pub open spec fn packed_bytes(e: IndexedEntry) -> nat {
    text_bytes(e.path@) + field_cost(e.path@, e.name@) + field_cost(e.path@, e.parent@) + field_cost(
        e.path@,
        extension_text(e),
    ) + field_cost(e.path@, e.root@) + if custom_search_text(e) {
        text_bytes(e.search_text@)
    } else {
        0
    }
}

/// The most pool values packing an entry adds, counted as `packed_bytes` does.
pub open spec fn packed_slots(e: IndexedEntry) -> nat {
    1 + field_slots(e.path@, e.name@) + field_slots(e.path@, e.parent@) + field_slots(e.path@, extension_text(e))
        + field_slots(e.path@, e.root@) + if custom_search_text(e) {
        1nat
    } else {
        0nat
    }
}

pub open spec fn packed_bytes_total(s: Seq<IndexedEntry>) -> nat
    decreases s.len(),
{
    if s.len() == 0 {
        0
    } else {
        packed_bytes_total(s.drop_last()) + packed_bytes(s.last())
    }
}

pub open spec fn packed_slots_total(s: Seq<IndexedEntry>) -> nat
    decreases s.len(),
{
    if s.len() == 0 {
        0
    } else {
        packed_slots_total(s.drop_last()) + packed_slots(s.last())
    }
}

fn pack_entry(builder: &mut PackedArenaBuilder, e: &IndexedEntry, id: EntryId) -> (r: Result<
    CompactEntry,
    CompactIndexBuildError,
>)
    requires
        old(builder).wf(),
        e.depth <= u32::MAX,
    ensures
        final(builder).wf(),
        final(builder).extends(old(builder)),
        final(builder).arena_bytes <= old(builder).arena_bytes + entry_bytes(*e),
        final(builder).stored@.len() <= old(builder).stored@.len() + 6,
        r is Ok ==> final(builder).arena_bytes <= old(builder).arena_bytes + packed_bytes(*e),
        r is Ok ==> final(builder).stored@.len() <= old(builder).stored@.len() + packed_slots(*e),
        match r {
            Ok(c) => {
                &&& c.id == id
                &&& entry_fits(final(builder).arena@, c)
                &&& entry_model(final(builder).arena@, c) == stored_model(*e)
            },
            Err(err) => {
                &&& err matches CompactIndexBuildError::ArenaTooLarge { requested_bytes }
                &&& requested_bytes > old(builder).arena_limit
                &&& requested_bytes <= old(builder).arena_bytes + entry_bytes(*e)
            },
        },
        old(builder).arena_bytes + entry_bytes(*e) <= old(builder).arena_limit ==> r is Ok,
{
    let ghost a0 = builder.arena@;
    let ghost b0 = builder.arena_bytes;
    let ghost s0 = builder.stored@.len();
    let path_chars = chars_of(e.path.as_str());
    let path = match builder.store(path_chars.as_slice()) {
        Ok(r) => r,
        Err(err) => return Err(err),
    };
    let ghost a1 = builder.arena@;
    let name_chars = chars_of(e.name.as_str());
    let name = match builder.store_path_slice_or_value(path, path_chars.as_slice(), name_chars.as_slice()) {
        Ok(r) => r,
        Err(err) => {
            proof { lemma_prefix_trans(a0, a1, builder.arena@); }
            return Err(err);
        },
    };
    let ghost a2 = builder.arena@;
    proof { lemma_range_stable_some(a1, a2, path); lemma_prefix_trans(a0, a1, a2); }
    let parent_chars = chars_of(e.parent.as_str());
    let parent = match builder.store_optional_path_slice(path, path_chars.as_slice(), parent_chars.as_slice()) {
        Ok(r) => r,
        Err(err) => {
            proof { lemma_prefix_trans(a0, a2, builder.arena@); }
            return Err(err);
        },
    };
    let ghost a3 = builder.arena@;
    proof { lemma_range_stable_some(a2, a3, path); lemma_prefix_trans(a0, a2, a3); }
    let extension = match &e.extension {
        Some(x) => {
            let x_chars = chars_of(x.as_str());
            if x_chars.len() > 0 {
                match builder.store_path_slice_or_value(path, path_chars.as_slice(), x_chars.as_slice()) {
                    Ok(r) => r,
                    Err(err) => {
                        proof { lemma_prefix_trans(a0, a3, builder.arena@); }
                        return Err(err);
                    },
                }
            } else {
                proof { assert(builder.arena@.subrange(0, builder.arena@.len() as int) =~= builder.arena@); }
                PackedTextRange::missing()
            }
        },
        None => {
            proof { assert(builder.arena@.subrange(0, builder.arena@.len() as int) =~= builder.arena@); }
            PackedTextRange::missing()
        },
    };
    let ghost a4 = builder.arena@;
    proof { lemma_range_stable_some(a3, a4, path); lemma_prefix_trans(a0, a3, a4); }
    let root_chars = chars_of(e.root.as_str());
    let root = match builder.store_optional_path_slice(path, path_chars.as_slice(), root_chars.as_slice()) {
        Ok(r) => r,
        Err(err) => {
            proof { lemma_prefix_trans(a0, a4, builder.arena@); }
            return Err(err);
        },
    };
    let ghost a5 = builder.arena@;
    proof { lemma_prefix_trans(a0, a4, a5); }
    let standard = build_search_text(e.name.as_str(), e.path.as_str());
    let s_chars = chars_of(e.search_text.as_str());
    let search_text = if s_chars.len() == 0 || str_eq(e.search_text.as_str(), standard.as_str()) {
        proof { assert(builder.arena@.subrange(0, builder.arena@.len() as int) =~= builder.arena@); }
        PackedTextRange::missing()
    } else {
        match builder.store(s_chars.as_slice()) {
            Ok(r) => r,
            Err(err) => {
                proof { lemma_prefix_trans(a0, a5, builder.arena@); }
                return Err(err);
            },
        }
    };
    let ghost a6 = builder.arena@;
    let c = CompactEntry {
        id,
        path,
        name,
        kind: e.kind,
        parent,
        extension,
        depth: e.depth as u32,
        root,
        modified_ms: e.modified_ms,
        size_bytes: e.size_bytes,
        search_text,
        content_index_state: e.content_index_state,
    };
    proof {
        lemma_prefix_trans(a2, a3, a4);
        lemma_prefix_trans(a2, a4, a5);
        lemma_prefix_trans(a2, a5, a6);
        lemma_prefix_trans(a3, a4, a5);
        lemma_prefix_trans(a3, a5, a6);
        lemma_prefix_trans(a4, a5, a6);
        lemma_prefix_trans(a1, a2, a6);
        lemma_prefix_trans(a0, a1, a6);
        lemma_range_stable_some(a1, a6, path);
        lemma_range_stable_some(a2, a6, name);
        lemma_range_text_stable(a3, a6, parent);
        lemma_range_text_stable(a4, a6, extension);
        lemma_range_text_stable(a5, a6, root);
        assert(entry_fits(a6, c));
        let m = entry_model(a6, c);
        let t = stored_model(*e);
        assert(m.path == t.path);
        assert(m.name == t.name);
        assert(m.parent == t.parent);
        assert(m.extension == t.extension);
        assert(m.root == t.root);
        assert(m.depth == t.depth);
        assert(m.search_text == t.search_text);
    }
    Ok(c)
}

/// A table of entries whose strings share one character arena.
#[derive(Debug)]
pub struct EntryTable {
    entries: Vec<CompactEntry>,
    arena: Vec<char>,
    arena_bytes: usize,
    unique_value_count: usize,
}

impl EntryTable {
    #[verifier::type_invariant]
    spec fn inv(&self) -> bool {
        &&& self.arena@.len() <= self.arena_bytes < MISSING_RANGE_START
        &&& self.arena_bytes == text_bytes(self.arena@)
        &&& self.entries@.len() <= u32::MAX
        &&& forall|i: int|
            0 <= i < self.entries@.len() ==> entry_fits(self.arena@, #[trigger] self.entries@[i])
                && self.entries@[i].id.0 == i
    }

    /// The characters of the arena.
    pub closed spec fn arena_view(&self) -> Seq<char> {
        self.arena@
    }

    /// The packed entries, in identifier order.
    pub closed spec fn compact_entries(&self) -> Seq<CompactEntry> {
        self.entries@
    }

    /// Number of distinct values stored in the arena.
    pub closed spec fn pool_count(&self) -> nat {
        self.unique_value_count as nat
    }

    /// Size of the arena in UTF-8 bytes.
    pub closed spec fn pool_bytes(&self) -> nat {
        self.arena_bytes as nat
    }

    /// The fields that a packed entry denotes in this table's arena.
    pub open spec fn model_of(&self, e: CompactEntry) -> EntryModel {
        entry_model(self.arena_view(), e)
    }
}

impl View for EntryTable {
    type V = Seq<EntryModel>;

    closed spec fn view(&self) -> Seq<EntryModel> {
        Seq::new(self.entries@.len(), |i: int| entry_model(self.arena@, self.entries@[i]))
    }
}

/// A copy of a vector of plain values.
fn copy_vec<T: Copy>(v: &Vec<T>) -> (r: Vec<T>)
    ensures
        r@ == v@,
{
    let mut out: Vec<T> = Vec::new();
    let mut i: usize = 0;
    while i < v.len()
        invariant
            i <= v@.len(),
            out@ == v@.take(i as int),
        decreases v@.len() - i,
    {
        out.push(v[i]);
        i = i + 1;
        assert(out@ =~= v@.take(i as int));
    }
    assert(v@.take(v@.len() as int) =~= v@);
    out
}

impl Clone for EntryTable {
    fn clone(&self) -> (r: Self)
        ensures
            r@ == self@,
            r.arena_view() == self.arena_view(),
            r.compact_entries() == self.compact_entries(),
            r.pool_count() == self.pool_count(),
            r.pool_bytes() == self.pool_bytes(),
    {
        proof {
            use_type_invariant(self);
        }
        EntryTable {
            entries: copy_vec(&self.entries),
            arena: copy_vec(&self.arena),
            arena_bytes: self.arena_bytes,
            unique_value_count: self.unique_value_count,
        }
    }
}

impl Default for EntryTable {
    fn default() -> (r: Self)
        ensures
            r@.len() == 0,
            r.pool_count() == 0,
            r.pool_bytes() == 0,
    {
        let r = EntryTable { entries: Vec::new(), arena: Vec::new(), arena_bytes: 0, unique_value_count: 0 };
        assert(r.arena@ =~= Seq::<char>::empty());
        r
    }
}

/// `Vec::shrink_to_fit`: releases spare capacity, keeping the contents.
#[verifier::external_body]
fn shrink_vec<T>(v: &mut Vec<T>)
    ensures
        final(v)@ == old(v)@,
{
    v.shrink_to_fit();
}

/// `Vec::capacity`: never less than the length.
#[verifier::external_body]
fn vec_capacity<T>(v: &Vec<T>) -> (r: usize)
    ensures
        r >= v@.len(),
{
    v.capacity()
}

/// What building from `entries` yields: the stored form of every entry, or an
/// error that says which limit the input passes.
pub open spec fn table_build_outcome(
    entries: Seq<IndexedEntry>,
    arena_limit: usize,
    r: Result<Seq<EntryModel>, CompactIndexBuildError>,
) -> bool {
    &&& match r {
        Ok(models) => {
            &&& models.len() == entries.len()
            &&& forall|i: int| 0 <= i < entries.len() ==> #[trigger] models[i] == stored_model(entries[i])
        },
        Err(CompactIndexBuildError::TooManyEntries { count }) => entries.len() > u32::MAX && count
            == entries.len(),
        Err(CompactIndexBuildError::DepthTooLarge { depth }) => {
            &&& entries.len() <= u32::MAX
            &&& depth > u32::MAX
            &&& exists|k: int| 0 <= k < entries.len() && #[trigger] entries[k].depth == depth
        },
        Err(CompactIndexBuildError::ArenaTooLarge { requested_bytes }) => {
            &&& entries.len() <= u32::MAX
            &&& requested_bytes > effective_arena_limit(arena_limit)
            &&& entries_bytes(entries) > effective_arena_limit(arena_limit)
        },
        Err(_) => false,
    }
    &&& build_fits(entries, arena_limit) ==> r is Ok
}

pub open spec fn table_result_view(r: Result<EntryTable, CompactIndexBuildError>) -> Result<
    Seq<EntryModel>,
    CompactIndexBuildError,
> {
    match r {
        Ok(t) => Ok(t@),
        Err(e) => Err(e),
    }
}

impl EntryTable {
    /// Builds a table; panics where `try_from_entries` would fail.
    pub fn from_entries(entries: Vec<IndexedEntry>) -> (r: Self)
        requires
            build_fits(entries@, (u32::MAX - 1) as usize),
        ensures
            r@.len() == entries@.len(),
            forall|i: int| 0 <= i < entries@.len() ==> #[trigger] r@[i] == stored_model(entries@[i]),
            r.pool_bytes() <= packed_bytes_total(entries@),
            r.pool_count() <= packed_slots_total(entries@),
            forall|i: int| 0 <= i < entries@.len() ==> text_bytes(#[trigger] entries@[i].path@) <= r.pool_bytes(),
    {
        match Self::try_from_entries(entries) {
            Ok(t) => t,
            Err(_) => {
                assert(false);
                EntryTable::default()
            },
        }
    }

    pub fn try_from_entries(entries: Vec<IndexedEntry>) -> (r: Result<Self, CompactIndexBuildError>)
        ensures
            table_build_outcome(entries@, (u32::MAX - 1) as usize, table_result_view(r)),
            r matches Ok(t) ==> t.pool_bytes() <= packed_bytes_total(entries@) && t.pool_count() <= packed_slots_total(
                entries@,
            ),
            r matches Ok(t) ==> forall|i: int| 0 <= i < entries@.len() ==> text_bytes(#[trigger] entries@[i].path@) <= t.pool_bytes(),
    {
        Self::try_from_entries_with_arena_limit(entries, (MISSING_RANGE_START - 1) as usize)
    }

    fn try_from_entries_with_arena_limit(entries: Vec<IndexedEntry>, arena_limit: usize) -> (r:
        Result<Self, CompactIndexBuildError>)
        ensures
            table_build_outcome(entries@, arena_limit, table_result_view(r)),
            r matches Ok(t) ==> t.pool_count() <= 6 * entries@.len(),
            r matches Ok(t) ==> t.pool_bytes() <= packed_bytes_total(entries@) && t.pool_count() <= packed_slots_total(
                entries@,
            ),
            r matches Ok(t) ==> forall|i: int| 0 <= i < entries@.len() ==> text_bytes(#[trigger] entries@[i].path@) <= t.pool_bytes(),
    {
        if entries.len() > u32::MAX as usize {
            return Err(CompactIndexBuildError::TooManyEntries { count: entries.len() });
        }
        let mut builder = PackedArenaBuilder::with_limit(arena_limit);
        let mut ids = EntryIdAllocator::default();
        let mut out: Vec<CompactEntry> = Vec::new();
        let mut i: usize = 0;
        while i < entries.len()
            invariant
                i <= entries@.len() <= u32::MAX,
                builder.wf(),
                builder.arena_limit == effective_arena_limit(arena_limit),
                ids.next_value() == i,
                out@.len() == i,
                builder.stored@.len() <= 6 * i,
                builder.arena_bytes <= entries_bytes(entries@.take(i as int)),
                builder.arena_bytes <= packed_bytes_total(entries@.take(i as int)),
                builder.stored@.len() <= packed_slots_total(entries@.take(i as int)),
                forall|k: int| 0 <= k < i ==> #[trigger] entries@[k].depth <= u32::MAX,
                forall|k: int|
                    0 <= k < i ==> entry_fits(builder.arena@, #[trigger] out@[k]) && out@[k].id.0
                        == k && entry_model(builder.arena@, out@[k]) == stored_model(entries@[k]),
            decreases entries@.len() - i,
        {
            let id = ids.next_id();
            let e = &entries[i];
            if e.depth > u32::MAX as usize {
                return Err(CompactIndexBuildError::DepthTooLarge { depth: e.depth });
            }
            let ghost before = builder.arena@;
            let ghost bytes_before = builder.arena_bytes;
            proof {
                assert(entries@.take(i + 1).drop_last() =~= entries@.take(i as int));
                lemma_entries_bytes_prefix(entries@, i + 1);
            }
            match pack_entry(&mut builder, e, id) {
                Ok(c) => {
                    proof {
                        assert forall|k: int| 0 <= k < i implies entry_fits(builder.arena@, #[trigger] out@[k])
                            && entry_model(builder.arena@, out@[k]) == entry_model(before, out@[k]) by {
                            lemma_entry_stable(before, builder.arena@, out@[k]);
                        }
                    }
                    out.push(c);
                },
                Err(err) => {
                    proof {
                        lemma_entries_bytes_prefix(entries@, i + 1);
                    }
                    return Err(err);
                },
            }
            i = i + 1;
        }
        proof {
            assert(entries@.take(entries@.len() as int) =~= entries@);
        }
        let unique_value_count = builder.stored.len();
        let mut arena = builder.arena;
        shrink_vec(&mut arena);
        shrink_vec(&mut out);
        let table = EntryTable { entries: out, arena, arena_bytes: builder.arena_bytes, unique_value_count };
        proof {
            assert forall|k: int| 0 <= k < entries@.len() implies #[trigger] table@[k] == stored_model(entries@[k]) by {
                assert(table@[k] == entry_model(table.arena@, table.entries@[k]));
            }
            assert forall|k: int| 0 <= k < entries@.len() implies text_bytes(#[trigger] entries@[k].path@) <= table.pool_bytes() by {
                let c = table.entries@[k];
                assert(entry_fits(table.arena@, c));
                assert(range_text(table.arena@, c.path_range()) == Some(entries@[k].path@));
                lemma_range_text_bytes(table.arena@, c.path_range());
            }
        }
        Ok(table)
    }
}

pub open spec fn string_opt_view(o: Option<String>) -> Option<Seq<char>> {
    match o {
        Some(s) => Some(s@),
        None => None,
    }
}

/// Memory that a table takes, as far as it can be counted.
#[derive(Debug, Clone, Copy, PartialEq, Eq, Structural)]
pub struct EntryTableMemoryEstimate {
    pub entry_count: usize,
    pub entry_struct_bytes: usize,
    pub string_pool_unique_values: usize,
    pub string_pool_bytes: usize,
    pub string_pool_heap_bytes: usize,
    pub retained_build_interner_bytes: usize,
}

impl EntryTableMemoryEstimate {
    /// The table's own size plus the entries' and the pool's heap bytes.
    pub fn total_resident_bytes(&self) -> (r: usize)
        ensures
            r == saturate(saturate(size_of::<EntryTable>() + self.entry_struct_bytes)
                + self.string_pool_heap_bytes),
    {
        core::mem::size_of::<EntryTable>().saturating_add(self.entry_struct_bytes).saturating_add(
            self.string_pool_heap_bytes,
        )
    }
}

impl EntryTable {
    /// The characters of a range, when it denotes any.
    fn text(&self, range: PackedTextRange) -> (r: Option<Vec<char>>)
        ensures
            match r {
                Some(v) => range_text(self.arena_view(), range) == Some(v@),
                None => range_text(self.arena_view(), range) is None,
            },
    {
        if range.is_missing() {
            return None;
        }
        let start = range.start as usize;
        let len = range.len as usize;
        let alen = self.arena.len();
        if len > alen || start > alen - len {
            return None;
        }
        let mut out: Vec<char> = Vec::new();
        let mut i: usize = 0;
        while i < len
            invariant
                i <= len,
                alen == self.arena@.len(),
                start + len <= alen,
                out@ == self.arena@.subrange(start as int, start + i),
            decreases len - i,
        {
            out.push(self.arena[start + i]);
            i = i + 1;
            assert(out@ =~= self.arena@.subrange(start as int, start + i));
        }
        Some(out)
    }

    fn text_string(&self, range: PackedTextRange) -> (r: Option<String>)
        ensures
            string_opt_view(r) == range_text(self.arena_view(), range),
    {
        match self.text(range) {
            Some(v) => Some(string_from_chars(v.as_slice())),
            None => None,
        }
    }

    /// The entry with identifier `id`.
    pub fn get(&self, id: EntryId) -> (r: Option<&CompactEntry>)
        ensures
            match r {
                Some(e) => {
                    &&& id.value() < self@.len()
                    &&& *e == self.compact_entries()[id.value() as int]
                    &&& self@[id.value() as int] == self.model_of(*e)
                    &&& range_text(self.arena_view(), e.path_range()) == Some(self@[id.value() as int].path)
                    &&& range_text(self.arena_view(), e.name_range()) == Some(self@[id.value() as int].name)
                },
                None => id.value() >= self@.len(),
            },
    {
        proof {
            use_type_invariant(self);
        }
        let i = id.as_usize();
        if i < self.entries.len() {
            let e = &self.entries[i];
            proof {
                assert(e.id.0 == i);
            }
            Some(e)
        } else {
            None
        }
    }

    pub fn len(&self) -> (r: usize)
        ensures
            r == self@.len(),
            r == self.compact_entries().len(),
    {
        self.entries.len()
    }

    pub fn is_empty(&self) -> (r: bool)
        ensures
            r == (self@.len() == 0),
    {
        self.entries.len() == 0
    }

    pub fn path(&self, entry: &CompactEntry) -> (r: Option<String>)
        ensures
            string_opt_view(r) == range_text(self.arena_view(), entry.path_range()),
    {
        self.text_string(entry.path)
    }

    pub fn name(&self, entry: &CompactEntry) -> (r: Option<String>)
        ensures
            string_opt_view(r) == range_text(self.arena_view(), entry.name_range()),
    {
        self.text_string(entry.name)
    }

    pub fn parent(&self, entry: &CompactEntry) -> (r: Option<String>)
        ensures
            string_opt_view(r) == range_text(self.arena_view(), entry.parent_range()),
    {
        self.text_string(entry.parent)
    }

    pub fn extension(&self, entry: &CompactEntry) -> (r: Option<String>)
        ensures
            string_opt_view(r) == range_text(self.arena_view(), entry.extension_range()),
    {
        self.text_string(entry.extension)
    }

    pub fn root(&self, entry: &CompactEntry) -> (r: Option<String>)
        ensures
            string_opt_view(r) == range_text(self.arena_view(), entry.root_range()),
    {
        self.text_string(entry.root)
    }

    fn text_or_empty_string(&self, range: PackedTextRange) -> (r: String)
        ensures
            r@ == text_or_empty(range_text(self.arena_view(), range)),
    {
        match self.text_string(range) {
            Some(t) => t,
            None => String::new(),
        }
    }

    /// The custom search text, or the standard one derived from name and path.
    pub fn search_text(&self, entry: &CompactEntry) -> (r: String)
        ensures
            r@ == self.model_of(*entry).search_text,
    {
        match self.text_string(entry.search_text) {
            Some(t) => t,
            None => {
                let name = self.text_or_empty_string(entry.name);
                let path = self.text_or_empty_string(entry.path);
                build_search_text(name.as_str(), path.as_str())
            },
        }
    }

    /// The entry with identifier `id`, as a plain entry again.
    pub fn materialize(&self, id: EntryId) -> (r: Option<IndexedEntry>)
        ensures
            match r {
                Some(m) => id.value() < self@.len() && entry_view(m) == self@[id.value() as int],
                None => id.value() >= self@.len(),
            },
    {
        let entry = match self.get(id) {
            Some(e) => e,
            None => return None,
        };
        let path = match self.path(entry) {
            Some(p) => p,
            None => return None,
        };
        let name = match self.name(entry) {
            Some(n) => n,
            None => return None,
        };
        let m = IndexedEntry {
            path,
            name,
            kind: entry.kind,
            parent: self.text_or_empty_string(entry.parent),
            extension: self.extension(entry),
            depth: entry.depth as usize,
            root: self.text_or_empty_string(entry.root),
            modified_ms: entry.modified_ms,
            size_bytes: entry.size_bytes,
            search_text: self.search_text(entry),
            content_index_state: entry.content_index_state,
        };
        proof {
            let a = entry_view(m);
            let b = self.model_of(*entry);
            assert(a.path == b.path);
            assert(a.name == b.name);
            assert(a.parent == b.parent);
            assert(a.extension == b.extension);
            assert(a.root == b.root);
            assert(a.search_text == b.search_text);
        }
        Some(m)
    }

    /// The path of the entry with identifier `id`.
    pub fn path_by_id(&self, id: EntryId) -> (r: Option<String>)
        ensures
            match r {
                Some(p) => id.value() < self@.len() && p@ == self@[id.value() as int].path,
                None => id.value() >= self@.len(),
            },
    {
        match self.get(id) {
            Some(entry) => self.path(entry),
            None => None,
        }
    }

    /// Number of distinct strings stored in the pool.
    pub fn string_pool_len(&self) -> (r: usize)
        ensures
            r == self.pool_count(),
    {
        self.unique_value_count
    }

    pub fn memory_estimate(&self) -> (r: EntryTableMemoryEstimate)
        ensures
            r.entry_count == self@.len(),
            r.entry_struct_bytes >= saturate((self@.len() * size_of::<CompactEntry>()) as int),
            r.string_pool_unique_values == self.pool_count(),
            r.string_pool_bytes == self.pool_bytes(),
            r.string_pool_heap_bytes >= saturate((self.arena_view().len() * 4) as int),
            r.retained_build_interner_bytes == 0,
    {
        let entry_capacity = vec_capacity(&self.entries);
        let arena_capacity = vec_capacity(&self.arena);
        let entry_size = core::mem::size_of::<CompactEntry>();
        let char_size = core::mem::size_of::<char>();
        proof {
            assert(entry_capacity * entry_size >= self.entries@.len() * entry_size) by (nonlinear_arith)
                requires entry_capacity >= self.entries@.len();
            assert(arena_capacity * char_size >= self.arena@.len() * 4) by (nonlinear_arith)
                requires arena_capacity >= self.arena@.len(), char_size == 4;
        }
        EntryTableMemoryEstimate {
            entry_count: self.entries.len(),
            entry_struct_bytes: saturating_mul(entry_capacity, entry_size),
            string_pool_unique_values: self.unique_value_count,
            string_pool_bytes: self.arena_bytes,
            string_pool_heap_bytes: saturating_mul(arena_capacity, char_size),
            retained_build_interner_bytes: 0,
        }
    }

    /// Heap bytes of the entries and the pool.
    fn estimated_heap_bytes(&self) -> (r: usize)
        ensures
            r >= saturate((self@.len() * size_of::<CompactEntry>()) as int),
    {
        let entry_capacity = vec_capacity(&self.entries);
        let arena_capacity = vec_capacity(&self.arena);
        let entry_size = core::mem::size_of::<CompactEntry>();
        proof {
            assert(entry_capacity * entry_size >= self.entries@.len() * entry_size) by (nonlinear_arith)
                requires entry_capacity >= self.entries@.len();
        }
        saturating_mul(entry_capacity, entry_size).saturating_add(
            saturating_mul(arena_capacity, core::mem::size_of::<char>()),
        )
    }

    pub fn entries(&self) -> (r: &[CompactEntry])
        ensures
            r@ == self.compact_entries(),
    {
        self.entries.as_slice()
    }

    /// Every identifier of the table, ascending.
    pub fn all_ids(&self) -> (r: Vec<EntryId>)
        ensures
            r@.len() == self@.len(),
            forall|i: int| 0 <= i < r@.len() ==> #[trigger] r@[i].value() == i,
    {
        proof {
            use_type_invariant(self);
        }
        let mut out: Vec<EntryId> = Vec::new();
        let mut i: usize = 0;
        while i < self.entries.len()
            invariant
                i <= self.entries@.len(),
                out@.len() == i,
                forall|k: int| 0 <= k < i ==> #[trigger] out@[k].value() == k,
                forall|k: int| 0 <= k < self.entries@.len() ==> #[trigger] self.entries@[k].id.0 == k,
            decreases self.entries@.len() - i,
        {
            out.push(self.entries[i].id);
            i = i + 1;
        }
        out
    }
}

/// An entry together with the table that holds its strings.
#[derive(Debug, Clone, Copy)]
pub struct CompactEntryRef<'a> {
    table: &'a EntryTable,
    entry: &'a CompactEntry,
}

impl<'a> CompactEntryRef<'a> {
    /// The fields of the entry.
    pub closed spec fn model(&self) -> EntryModel {
        self.table.model_of(*self.entry)
    }

    /// Whether the entry keeps a search text of its own.
    pub closed spec fn has_custom_search_text_spec(&self) -> bool {
        range_text(self.table.arena_view(), self.entry.search_text) is Some
    }

    pub fn path(&self) -> (r: String)
        ensures
            r@ == self.model().path,
    {
        self.table.text_or_empty_string(self.entry.path)
    }

    pub fn name(&self) -> (r: String)
        ensures
            r@ == self.model().name,
    {
        self.table.text_or_empty_string(self.entry.name)
    }

    pub fn parent(&self) -> (r: String)
        ensures
            r@ == self.model().parent,
    {
        self.table.text_or_empty_string(self.entry.parent)
    }

    pub fn extension(&self) -> (r: Option<String>)
        ensures
            string_opt_view(r) == self.model().extension,
    {
        self.table.extension(self.entry)
    }

    pub fn search_text(&self) -> (r: String)
        ensures
            r@ == self.model().search_text,
    {
        self.table.search_text(self.entry)
    }

    /// The custom search text, or else the path.
    pub fn match_search_text(&self) -> (r: String)
        ensures
            r@ == (if self.has_custom_search_text_spec() {
                self.model().search_text
            } else {
                self.model().path
            }),
    {
        match self.table.text_string(self.entry.search_text) {
            Some(t) => t,
            None => self.path(),
        }
    }

    pub fn has_custom_search_text(&self) -> (r: bool)
        ensures
            r == self.has_custom_search_text_spec(),
    {
        match self.table.text(self.entry.search_text) {
            Some(_) => true,
            None => false,
        }
    }
}

// ---------------------------------------------------------------------------
// Sorted identifier lists
// ---------------------------------------------------------------------------

/// Identifiers in strictly ascending order (so each occurs once).
pub open spec fn strictly_ascending(s: Seq<EntryId>) -> bool {
    forall|i: int, j: int| 0 <= i < j < s.len() ==> #[trigger] s[i].value() < #[trigger] s[j].value()
}

/// `r` lists, ascending, exactly the identifiers below `n` whose value satisfies `pred`.
pub open spec fn lists_exactly(r: Seq<EntryId>, n: nat, pred: spec_fn(nat) -> bool) -> bool {
    &&& strictly_ascending(r)
    &&& forall|id: EntryId| #[trigger] r.contains(id) <==> (id.value() < n && pred(id.value()))
}

/// Intersection of two ascending identifier lists by a merge walk. Every
/// identifier it returns is in both lists; on ascending lists it returns their
/// intersection, ascending.
pub fn intersect_sorted_ids(left: Vec<EntryId>, right: Vec<EntryId>) -> (r: Vec<EntryId>)
    ensures
        forall|id: EntryId| #[trigger] r@.contains(id) ==> left@.contains(id) && right@.contains(id),
        strictly_ascending(left@) && strictly_ascending(right@) ==> {
            &&& strictly_ascending(r@)
            &&& forall|id: EntryId| #[trigger] r@.contains(id) <==> left@.contains(id) && right@.contains(id)
        },
{
    let ghost sorted = strictly_ascending(left@) && strictly_ascending(right@);
    let mut out: Vec<EntryId> = Vec::new();
    let mut li: usize = 0;
    let mut ri: usize = 0;
    while li < left.len() && ri < right.len()
        invariant
            li <= left@.len(),
            ri <= right@.len(),
            sorted == (strictly_ascending(left@) && strictly_ascending(right@)),
            forall|id: EntryId| #[trigger] out@.contains(id) ==> left@.contains(id) && right@.contains(id),
            sorted ==> {
                &&& strictly_ascending(out@)
                &&& forall|id: EntryId| #[trigger] out@.contains(id) <==> (left@.take(li as int).contains(id) && right@.contains(id))
                &&& (li < left@.len() ==> forall|q: int| 0 <= q < ri ==> #[trigger] right@[q].value() < left@[li as int].value())
                &&& (ri < right@.len() ==> forall|p: int| 0 <= p < li ==> #[trigger] left@[p].value() < right@[ri as int].value())
                &&& (li < left@.len() ==> forall|k: int| 0 <= k < out@.len() ==> #[trigger] out@[k].value() < left@[li as int].value())
            },
        decreases left@.len() - li + right@.len() - ri,
    {
        let a = left[li];
        let b = right[ri];
        let ghost out_before = out@;
        let ghost li0 = li as int;
        let ghost ri0 = ri as int;
        if a.0 < b.0 {
            li = li + 1;
            proof {
                if sorted {
                    assert(left@.take(li as int) =~= left@.take(li0).push(a));
                    assert(!right@.contains(a)) by {
                        if right@.contains(a) {
                            let q = choose|q: int| 0 <= q < right@.len() && right@[q] == a;
                            if q < ri0 {
                                assert(right@[q].value() < left@[li0].value());
                            } else {
                                assert(right@[ri0].value() <= right@[q].value());
                            }
                        }
                    }
                    assert forall|id: EntryId| #[trigger] out@.contains(id) <==> (left@.take(li as int).contains(id) && right@.contains(id)) by {
                        if left@.take(li as int).contains(id) && id != a {
                            let p = choose|p: int| 0 <= p < li && left@.take(li as int)[p] == id;
                            assert(p < li0);
                            assert(left@.take(li0)[p] == id);
                        }
                        if left@.take(li0).contains(id) {
                            let p = choose|p: int| 0 <= p < li0 && left@.take(li0)[p] == id;
                            assert(left@.take(li as int)[p] == id);
                        }
                    }
                    if li < left@.len() {
                        assert forall|q: int| 0 <= q < ri implies #[trigger] right@[q].value() < left@[li as int].value() by {
                            assert(left@[li0].value() < left@[li as int].value());
                        }
                        assert forall|k: int| 0 <= k < out@.len() implies #[trigger] out@[k].value() < left@[li as int].value() by {
                            assert(left@[li0].value() < left@[li as int].value());
                        }
                    }
                }
            }
        } else if b.0 < a.0 {
            ri = ri + 1;
            proof {
                if sorted {
                    if ri < right@.len() {
                        assert forall|p: int| 0 <= p < li implies #[trigger] left@[p].value() < right@[ri as int].value() by {
                            assert(right@[ri0].value() < right@[ri as int].value());
                        }
                    }
                    assert forall|id: EntryId| #[trigger] out@.contains(id) <==> (left@.take(li as int).contains(id) && right@.contains(id)) by {}
                }
            }
        } else {
            proof {
                lemma_entry_id_value_injective(a, b);
            }
            out.push(a);
            li = li + 1;
            ri = ri + 1;
            proof {
                assert(right@[ri0] == a);
                assert(left@[li0] == a);
                assert forall|id: EntryId| #[trigger] out@.contains(id) implies left@.contains(id) && right@.contains(id) by {
                    if id != a {
                        assert(out_before.contains(id));
                    }
                }
                if sorted {
                    assert(left@.take(li as int) =~= left@.take(li0).push(a));
                    assert forall|id: EntryId| #[trigger] out@.contains(id) <==> (left@.take(li as int).contains(id) && right@.contains(id)) by {
                        if id == a {
                            assert(out@[out@.len() - 1] == a);
                            assert(left@.take(li as int)[li0] == a);
                        } else {
                            if left@.take(li as int).contains(id) {
                                let p = choose|p: int| 0 <= p < li && left@.take(li as int)[p] == id;
                                assert(left@.take(li0)[p] == id);
                                assert(left@.take(li0).contains(id));
                                if right@.contains(id) {
                                    assert(out_before.contains(id));
                                    let k = choose|k: int| 0 <= k < out_before.len() && out_before[k] == id;
                                    assert(out@[k] == id);
                                }
                            }
                            if out@.contains(id) {
                                let k = choose|k: int| 0 <= k < out@.len() && out@[k] == id;
                                assert(k < out_before.len());
                                assert(out_before[k] == id);
                                assert(out_before.contains(id));
                                assert(left@.take(li0).contains(id));
                                let p = choose|p: int| 0 <= p < li0 && left@.take(li0)[p] == id;
                                assert(left@.take(li as int)[p] == id);
                            }
                        }
                    }
                    assert forall|i: int, j: int| 0 <= i < j < out@.len() implies #[trigger] out@[i].value() < #[trigger] out@[j].value() by {
                        if j == out@.len() - 1 {
                            assert(out@[i] == out_before[i]);
                        } else {
                            assert(out@[i] == out_before[i] && out@[j] == out_before[j]);
                        }
                    }
                    if li < left@.len() {
                        assert forall|q: int| 0 <= q < ri implies #[trigger] right@[q].value() < left@[li as int].value() by {
                            if q < ri0 {
                                assert(right@[q].value() < left@[li0].value());
                            }
                            assert(left@[li0].value() < left@[li as int].value());
                        }
                        assert forall|k: int| 0 <= k < out@.len() implies #[trigger] out@[k].value() < left@[li as int].value() by {
                            assert(left@[li0].value() < left@[li as int].value());
                            if k < out_before.len() {
                                assert(out@[k] == out_before[k]);
                            }
                        }
                    }
                    if ri < right@.len() {
                        assert forall|p: int| 0 <= p < li implies #[trigger] left@[p].value() < right@[ri as int].value() by {
                            if p < li0 {
                                assert(left@[p].value() < right@[ri0].value());
                            }
                            assert(right@[ri0].value() < right@[ri as int].value());
                        }
                    }
                }
            }
        }
    }
    proof {
        if sorted {
            assert forall|id: EntryId| #[trigger] out@.contains(id) <==> left@.contains(id) && right@.contains(id) by {
                if li == left@.len() {
                    assert(left@.take(li as int) =~= left@);
                } else if left@.contains(id) && right@.contains(id) {
                    let p = choose|p: int| 0 <= p < left@.len() && left@[p] == id;
                    let q = choose|q: int| 0 <= q < right@.len() && right@[q] == id;
                    if p >= li {
                        assert(right@[q].value() < left@[li as int].value());
                        assert(left@[li as int].value() <= left@[p].value());
                    } else {
                        assert(left@.take(li as int)[p] == id);
                    }
                }
            }
        }
    }
    out
}

proof fn lemma_take_next_contains(s: Seq<EntryId>, i: int)
    requires
        0 <= i < s.len(),
    ensures
        forall|id: EntryId| #[trigger] s.take(i + 1).contains(id) <==> (s.take(i).contains(id) || id == s[i]),
{
    assert forall|id: EntryId| #[trigger] s.take(i + 1).contains(id) <==> (s.take(i).contains(id) || id == s[i]) by {
        let t = s.take(i + 1);
        if t.contains(id) {
            let p = choose|p: int| 0 <= p < t.len() && t[p] == id;
            if p < i {
                assert(s.take(i)[p] == id);
            }
        }
        if s.take(i).contains(id) {
            let p = choose|p: int| 0 <= p < i && s.take(i)[p] == id;
            assert(s.take(i + 1)[p] == id);
        }
        if id == s[i] {
            assert(s.take(i + 1)[i] == id);
        }
    }
}

proof fn lemma_push_contains(s: Seq<EntryId>, x: EntryId)
    ensures
        forall|id: EntryId| #[trigger] s.push(x).contains(id) <==> (s.contains(id) || id == x),
{
    assert forall|id: EntryId| #[trigger] s.push(x).contains(id) <==> (s.contains(id) || id == x) by {
        if s.push(x).contains(id) {
            let p = choose|p: int| 0 <= p < s.len() + 1 && s.push(x)[p] == id;
            if p < s.len() {
                assert(s[p] == id);
            }
        }
        if s.contains(id) {
            let p = choose|p: int| 0 <= p < s.len() && s[p] == id;
            assert(s.push(x)[p] == id);
        }
        if id == x {
            assert(s.push(x)[s.len() as int] == id);
        }
    }
}

/// Appending an identifier above every listed one keeps a list ascending.
proof fn lemma_push_ascending(s: Seq<EntryId>, x: EntryId)
    requires
        strictly_ascending(s),
        forall|k: int| 0 <= k < s.len() ==> #[trigger] s[k].value() < x.value(),
    ensures
        strictly_ascending(s.push(x)),
{
    assert forall|i: int, j: int| 0 <= i < j < s.push(x).len() implies #[trigger] s.push(x)[i].value()
        < #[trigger] s.push(x)[j].value() by {
        assert(s.push(x)[i] == s[i]);
        if j < s.len() {
            assert(s.push(x)[j] == s[j]);
        }
    }
}

/// Union of two ascending identifier lists, ascending.
fn union_sorted_ids(a: Vec<EntryId>, b: Vec<EntryId>) -> (r: Vec<EntryId>)
    requires
        strictly_ascending(a@),
        strictly_ascending(b@),
    ensures
        strictly_ascending(r@),
        forall|id: EntryId| #[trigger] r@.contains(id) <==> (a@.contains(id) || b@.contains(id)),
{
    let mut out: Vec<EntryId> = Vec::new();
    let mut i: usize = 0;
    let mut j: usize = 0;
    while i < a.len() || j < b.len()
        invariant
            i <= a@.len(),
            j <= b@.len(),
            strictly_ascending(a@),
            strictly_ascending(b@),
            strictly_ascending(out@),
            forall|id: EntryId| #[trigger] out@.contains(id) <==> (a@.take(i as int).contains(id) || b@.take(j as int).contains(id)),
            i < a@.len() ==> forall|k: int| 0 <= k < out@.len() ==> #[trigger] out@[k].value() < a@[i as int].value(),
            j < b@.len() ==> forall|k: int| 0 <= k < out@.len() ==> #[trigger] out@[k].value() < b@[j as int].value(),
        decreases a@.len() - i + b@.len() - j,
    {
        let ghost before = out@;
        let ghost i0 = i as int;
        let ghost j0 = j as int;
        let take_a = j >= b.len() || (i < a.len() && a[i].0 < b[j].0);
        let take_b = i >= a.len() || (j < b.len() && b[j].0 < a[i].0);
        if take_a {
            let x = a[i];
            out.push(x);
            i = i + 1;
            proof {
                lemma_push_ascending(before, x);
                lemma_push_contains(before, x);
                lemma_take_next_contains(a@, i0);
                if j < b@.len() {
                    assert forall|k: int| 0 <= k < out@.len() implies #[trigger] out@[k].value() < b@[j as int].value() by {
                        if k < before.len() {
                            assert(out@[k] == before[k]);
                        }
                    }
                }
                if i < a@.len() {
                    assert forall|k: int| 0 <= k < out@.len() implies #[trigger] out@[k].value() < a@[i as int].value() by {
                        assert(a@[i0].value() < a@[i as int].value());
                        if k < before.len() {
                            assert(out@[k] == before[k]);
                        }
                    }
                }
            }
        } else if take_b {
            let x = b[j];
            out.push(x);
            j = j + 1;
            proof {
                lemma_push_ascending(before, x);
                lemma_push_contains(before, x);
                lemma_take_next_contains(b@, j0);
                if i < a@.len() {
                    assert forall|k: int| 0 <= k < out@.len() implies #[trigger] out@[k].value() < a@[i as int].value() by {
                        if k < before.len() {
                            assert(out@[k] == before[k]);
                        }
                    }
                }
                if j < b@.len() {
                    assert forall|k: int| 0 <= k < out@.len() implies #[trigger] out@[k].value() < b@[j as int].value() by {
                        assert(b@[j0].value() < b@[j as int].value());
                        if k < before.len() {
                            assert(out@[k] == before[k]);
                        }
                    }
                }
            }
        } else {
            let x = a[i];
            proof {
                lemma_entry_id_value_injective(a@[i0], b@[j0]);
            }
            out.push(x);
            i = i + 1;
            j = j + 1;
            proof {
                lemma_push_ascending(before, x);
                lemma_push_contains(before, x);
                lemma_take_next_contains(a@, i0);
                lemma_take_next_contains(b@, j0);
                if i < a@.len() {
                    assert forall|k: int| 0 <= k < out@.len() implies #[trigger] out@[k].value() < a@[i as int].value() by {
                        assert(a@[i0].value() < a@[i as int].value());
                        if k < before.len() {
                            assert(out@[k] == before[k]);
                        }
                    }
                }
                if j < b@.len() {
                    assert forall|k: int| 0 <= k < out@.len() implies #[trigger] out@[k].value() < b@[j as int].value() by {
                        assert(b@[j0].value() < b@[j as int].value());
                        if k < before.len() {
                            assert(out@[k] == before[k]);
                        }
                    }
                }
            }
        }
    }
    proof {
        assert(a@.take(a@.len() as int) =~= a@);
        assert(b@.take(b@.len() as int) =~= b@);
    }
    out
}

// ---------------------------------------------------------------------------
// Fingerprints
// ---------------------------------------------------------------------------

const FNV_OFFSET: u32 = 0x811c_9dc5;
const FNV_PRIME: u32 = 0x0100_0193;

/// A 32-bit multiply-then-xor hash of a text with ASCII letters lower-cased, so
/// texts that differ only in ASCII case share it.
pub closed spec fn fingerprint(s: Seq<char>) -> u32
    decreases s.len(),
{
    if s.len() == 0 {
        FNV_OFFSET
    } else {
        fingerprint(s.drop_last()).wrapping_mul(FNV_PRIME) ^ (lower_char(s.last()) as u32)
    }
}

/// Texts equal up to ASCII case have one fingerprint.
pub proof fn lemma_fingerprint_ignores_ascii_case(a: Seq<char>, b: Seq<char>)
    requires
        lower(a) == lower(b),
    ensures
        fingerprint(a) == fingerprint(b),
    decreases a.len(),
{
    assert(a.len() == lower(a).len());
    assert(b.len() == lower(b).len());
    if a.len() > 0 {
        assert(lower(a.drop_last()) =~= lower(a).drop_last());
        assert(lower(b.drop_last()) =~= lower(b).drop_last());
        lemma_fingerprint_ignores_ascii_case(a.drop_last(), b.drop_last());
        assert(lower(a)[a.len() - 1] == lower(b)[b.len() - 1]);
    }
}

fn text_fingerprint(text: &[char]) -> (r: u32)
    ensures
        r == fingerprint(text@),
{
    let mut hash: u32 = FNV_OFFSET;
    let mut i: usize = 0;
    while i < text.len()
        invariant
            i <= text@.len(),
            hash == fingerprint(text@.take(i as int)),
        decreases text@.len() - i,
    {
        proof {
            assert(text@.take(i + 1).drop_last() =~= text@.take(i as int));
        }
        let c = ascii_lower_char(text[i]);
        hash = hash.wrapping_mul(FNV_PRIME) ^ (c as u32);
        i = i + 1;
    }
    proof {
        assert(text@.take(text@.len() as int) =~= text@);
    }
    hash
}

// ---------------------------------------------------------------------------
// Fingerprint postings
// ---------------------------------------------------------------------------

#[derive(Debug, Clone, Copy, PartialEq, Eq, Structural)]
struct FingerprintPosting {
    fingerprint: u32,
    id: EntryId,
}

spec fn posting_lt(a: FingerprintPosting, b: FingerprintPosting) -> bool {
    a.fingerprint < b.fingerprint || (a.fingerprint == b.fingerprint && a.id.0 < b.id.0)
}

spec fn postings_sorted(s: Seq<FingerprintPosting>) -> bool {
    forall|i: int, j: int| 0 <= i < j < s.len() ==> posting_lt(#[trigger] s[i], #[trigger] s[j])
}

fn posting_less(a: FingerprintPosting, b: FingerprintPosting) -> (r: bool)
    ensures
        r == posting_lt(a, b),
{
    a.fingerprint < b.fingerprint || (a.fingerprint == b.fingerprint && a.id.0 < b.id.0)
}

/// First position whose posting is not below `x`.
fn posting_lower_bound(v: &Vec<FingerprintPosting>, x: FingerprintPosting) -> (r: usize)
    requires
        postings_sorted(v@),
    ensures
        r <= v@.len(),
        forall|k: int| 0 <= k < r ==> posting_lt(#[trigger] v@[k], x),
        forall|k: int| r <= k < v@.len() ==> !posting_lt(#[trigger] v@[k], x),
{
    let mut lo: usize = 0;
    let mut hi: usize = v.len();
    while lo < hi
        invariant
            lo <= hi <= v@.len(),
            postings_sorted(v@),
            forall|k: int| 0 <= k < lo ==> posting_lt(#[trigger] v@[k], x),
            forall|k: int| hi <= k < v@.len() ==> !posting_lt(#[trigger] v@[k], x),
        decreases hi - lo,
    {
        let mid = lo + (hi - lo) / 2;
        if posting_less(v[mid], x) {
            proof {
                assert forall|k: int| 0 <= k < mid + 1 implies posting_lt(#[trigger] v@[k], x) by {
                    if k < mid {
                        assert(posting_lt(v@[k], v@[mid as int]));
                    }
                }
            }
            lo = mid + 1;
        } else {
            proof {
                assert forall|k: int| mid <= k < v@.len() implies !posting_lt(#[trigger] v@[k], x) by {
                    if k > mid {
                        assert(posting_lt(v@[mid as int], v@[k]));
                    }
                }
            }
            hi = mid;
        }
    }
    lo
}

/// Postings `(fingerprint, id)`, sorted and without repeats.
struct FingerprintIndex {
    postings: Vec<FingerprintPosting>,
}

impl FingerprintIndex {
    spec fn wf(&self) -> bool {
        postings_sorted(self.postings@)
    }

    spec fn has(&self, fp: u32, id: EntryId) -> bool {
        self.postings@.contains(FingerprintPosting { fingerprint: fp, id })
    }

    fn empty() -> (r: Self)
        ensures
            r.wf(),
            forall|fp: u32, id: EntryId| !r.has(fp, id),
    {
        FingerprintIndex { postings: Vec::new() }
    }

    fn duplicate(&self) -> (r: Self)
        ensures
            r.postings@ == self.postings@,
    {
        FingerprintIndex { postings: copy_vec(&self.postings) }
    }

    /// The index of the given `(fingerprint, id)` pairs.
    fn from_pairs(pairs: Vec<(u32, EntryId)>) -> (r: Self)
        ensures
            r.wf(),
            forall|fp: u32, id: EntryId| #[trigger] r.has(fp, id) <==> pairs@.contains((fp, id)),
    {
        let mut keyed: Vec<(u64, u32)> = Vec::new();
        let mut i: usize = 0;
        while i < pairs.len()
            invariant
                i <= pairs@.len(),
                keyed@.len() == i,
                forall|k: int| 0 <= k < i ==> #[trigger] keyed@[k] == (pairs@[k].0 as u64, pairs@[k].1.0),
            decreases pairs@.len() - i,
        {
            let (fp, id) = pairs[i];
            keyed.push((fp as u64, id.0));
            i = i + 1;
        }
        let sorted = sort_keyed(keyed.as_slice());
        proof {
            assert forall|q: int| 0 <= q < sorted@.len() implies #[trigger] sorted@[q].0 <= u32::MAX by {
                assert(sorted@.contains(sorted@[q]));
                assert(keyed@.contains(sorted@[q]));
                let w = choose|w: int| 0 <= w < keyed@.len() && keyed@[w] == sorted@[q];
            }
        }
        let mut postings: Vec<FingerprintPosting> = Vec::new();
        let mut k: usize = 0;
        while k < sorted.len()
            invariant
                k <= sorted@.len(),
                postings@.len() == k,
                forall|q: int| 0 <= q < sorted@.len() ==> #[trigger] sorted@[q].0 <= u32::MAX,
                forall|q: int| 0 <= q < k ==> #[trigger] postings@[q] == (FingerprintPosting {
                    fingerprint: sorted@[q].0 as u32,
                    id: EntryId(sorted@[q].1),
                }),
            decreases sorted@.len() - k,
        {
            let (key, id) = sorted[k];
            postings.push(FingerprintPosting { fingerprint: key as u32, id: EntryId(id) });
            k = k + 1;
        }
        let index = FingerprintIndex { postings };
        proof {
            assert forall|x: int, y: int| 0 <= x < y < index.postings@.len() implies posting_lt(#[trigger] index.postings@[x], #[trigger] index.postings@[y]) by {
                assert(keyed_lt(sorted@[x], sorted@[y]));
            }
            assert forall|fp: u32, id: EntryId| #[trigger] index.has(fp, id) <==> pairs@.contains((fp, id)) by {
                let post = FingerprintPosting { fingerprint: fp, id };
                let key = (fp as u64, id.0);
                if index.has(fp, id) {
                    let q = choose|q: int| 0 <= q < index.postings@.len() && index.postings@[q] == post;
                    assert(sorted@[q] == key);
                    assert(sorted@.contains(key));
                    assert(keyed@.contains(key));
                    let w = choose|w: int| 0 <= w < keyed@.len() && keyed@[w] == key;
                    assert(pairs@[w].0 == fp && pairs@[w].1.0 == id.0);
                    assert(pairs@[w] == (fp, id));
                }
                if pairs@.contains((fp, id)) {
                    let w = choose|w: int| 0 <= w < pairs@.len() && pairs@[w] == (fp, id);
                    assert(keyed@[w] == key);
                    assert(keyed@.contains(key));
                    assert(sorted@.contains(key));
                    let q = choose|q: int| 0 <= q < sorted@.len() && sorted@[q] == key;
                    assert(index.postings@[q] == post);
                }
            }
        }
        index
    }

    /// Identifiers posted under `fp`, ascending.
    fn matching_ids(&self, fp: u32) -> (r: Vec<EntryId>)
        requires
            self.wf(),
        ensures
            strictly_ascending(r@),
            forall|id: EntryId| #[trigger] r@.contains(id) <==> self.has(fp, id),
    {
        let start = posting_lower_bound(&self.postings, FingerprintPosting { fingerprint: fp, id: EntryId(0) });
        let mut out: Vec<EntryId> = Vec::new();
        let mut k: usize = start;
        while k < self.postings.len() && self.postings[k].fingerprint == fp
            invariant
                start <= k <= self.postings@.len(),
                postings_sorted(self.postings@),
                forall|q: int| 0 <= q < start ==> #[trigger] self.postings@[q].fingerprint < fp,
                forall|q: int| start <= q < k ==> #[trigger] self.postings@[q].fingerprint == fp,
                out@.len() == k - start,
                forall|q: int| 0 <= q < out@.len() ==> #[trigger] out@[q] == self.postings@[start + q].id,
            decreases self.postings@.len() - k,
        {
            out.push(self.postings[k].id);
            k = k + 1;
        }
        proof {
            assert forall|q: int| 0 <= q < start implies #[trigger] self.postings@[q].fingerprint < fp by {
                assert(posting_lt(self.postings@[q], FingerprintPosting { fingerprint: fp, id: EntryId(0) }));
            }
            assert forall|i: int, j: int| 0 <= i < j < out@.len() implies #[trigger] out@[i].value() < #[trigger] out@[j].value() by {
                assert(posting_lt(self.postings@[start + i], self.postings@[start + j]));
            }
            assert forall|id: EntryId| #[trigger] out@.contains(id) <==> self.has(fp, id) by {
                let x = FingerprintPosting { fingerprint: fp, id };
                if out@.contains(id) {
                    let q = choose|q: int| 0 <= q < out@.len() && out@[q] == id;
                    assert(self.postings@[start + q] == x);
                }
                if self.has(fp, id) {
                    let q = choose|q: int| 0 <= q < self.postings@.len() && self.postings@[q] == x;
                    if q >= k {
                        if k < self.postings@.len() {
                            assert(self.postings@[k as int].fingerprint != fp);
                            if q > k {
                                assert(posting_lt(self.postings@[k as int], self.postings@[q]));
                            }
                        }
                    }
                    assert(q >= start);
                    assert(out@[q - start] == id);
                }
            }
        }
        out
    }

    /// Heap bytes of the postings: at least their length times their size.
    fn heap_bytes(&self) -> (r: usize)
        ensures
            r >= saturate((self.postings@.len() * size_of::<FingerprintPosting>()) as int),
    {
        let capacity = vec_capacity(&self.postings);
        let size = core::mem::size_of::<FingerprintPosting>();
        proof {
            assert(capacity * size >= self.postings@.len() * size) by (nonlinear_arith)
                requires capacity >= self.postings@.len();
        }
        saturating_mul(capacity, size)
    }
}

// ---------------------------------------------------------------------------
// Helpers shared by the lookups
// ---------------------------------------------------------------------------

proof fn lemma_lower_idempotent(s: Seq<char>)
    ensures
        lower(lower(s)) == lower(s),
{
    assert(lower(lower(s)) =~= lower(s));
}

/// `str::eq_ignore_ascii_case`.
fn eq_ignore_ascii_case(a: &[char], b: &[char]) -> (r: bool)
    ensures
        r == (lower(a@) == lower(b@)),
{
    if a.len() != b.len() {
        proof {
            assert(lower(a@).len() != lower(b@).len());
        }
        return false;
    }
    let mut i: usize = 0;
    while i < a.len()
        invariant
            i <= a@.len(),
            a@.len() == b@.len(),
            forall|k: int| 0 <= k < i ==> lower_char(#[trigger] a@[k]) == lower_char(b@[k]),
        decreases a@.len() - i,
    {
        if ascii_lower_char(a[i]) != ascii_lower_char(b[i]) {
            proof {
                assert(lower(a@)[i as int] != lower(b@)[i as int]);
            }
            return false;
        }
        i = i + 1;
    }
    proof {
        assert(lower(a@) =~= lower(b@));
    }
    true
}

/// Last index of `c` in `s`, if any.
pub open spec fn last_index_of(s: Seq<char>, c: char) -> Option<int> {
    if exists|i: int| 0 <= i < s.len() && s[i] == c {
        Some(choose|i: int| 0 <= i < s.len() && s[i] == c && forall|j: int| i < j < s.len() ==> s[j] != c)
    } else {
        None
    }
}

pub fn rfind_char(s: &[char], c: char) -> (r: Option<usize>)
    ensures
        match r {
            Some(i) => i < s@.len() && last_index_of(s@, c) == Some(i as int),
            None => last_index_of(s@, c) is None,
        },
{
    let mut i: usize = s.len();
    while i > 0
        invariant
            i <= s@.len(),
            forall|j: int| i <= j < s@.len() ==> s@[j] != c,
        decreases i,
    {
        if s[i - 1] == c {
            let k: usize = i - 1;
            proof {
                assert(s@[k as int] == c);
                let w = choose|w: int| 0 <= w < s@.len() && s@[w] == c && forall|j: int| w < j < s@.len() ==> s@[j] != c;
                assert(0 <= k < s@.len() && s@[k as int] == c && forall|j: int| k < j < s@.len() ==> s@[j] != c);
                if w < k {
                    assert(s@[k as int] != c);
                } else if w > k {
                    assert(s@[w] != c);
                }
            }
            return Some(k);
        }
        i = i - 1;
    }
    None
}

/// The ASCII lower-cased text after the last dot of a name, if it has one.
pub open spec fn name_extension(name: Seq<char>) -> Option<Seq<char>> {
    match last_index_of(name, '.') {
        Some(k) => Some(lower(name.skip(k + 1))),
        None => None,
    }
}

/// The extension an entry is found under: its own, else the one of its name.
pub open spec fn candidate_extension(m: EntryModel) -> Option<Seq<char>> {
    match m.extension {
        Some(x) => Some(x),
        None => name_extension(m.name),
    }
}

pub fn entry_name_extension(name: &[char]) -> (r: Option<Vec<char>>)
    ensures
        match r {
            Some(v) => name_extension(name@) == Some(v@),
            None => name_extension(name@) is None,
        },
{
    let n = name.len();
    match rfind_char(name, '.') {
        Some(k) => {
            let rest = slice_chars(name, k + 1, n);
            proof {
                assert(rest@ =~= name@.skip(k + 1));
            }
            Some(lower_chars(rest.as_slice()))
        },
        None => None,
    }
}

/// The identifiers whose flag is set, in their order.
fn select_ids(ids: &Vec<EntryId>, flags: &Vec<bool>) -> (r: Vec<EntryId>)
    requires
        ids@.len() == flags@.len(),
    ensures
        strictly_ascending(ids@) ==> strictly_ascending(r@),
        forall|id: EntryId| #[trigger] r@.contains(id) <==> exists|k: int| 0 <= k < ids@.len() && ids@[k] == id && flags@[k],
{
    let mut out: Vec<EntryId> = Vec::new();
    let mut i: usize = 0;
    while i < ids.len()
        invariant
            i <= ids@.len(),
            ids@.len() == flags@.len(),
            strictly_ascending(ids@) ==> strictly_ascending(out@),
            strictly_ascending(ids@) ==> (i < ids@.len() ==> forall|q: int| 0 <= q < out@.len() ==> #[trigger] out@[q].value() < ids@[i as int].value()),
            forall|id: EntryId| #[trigger] out@.contains(id) <==> exists|k: int| 0 <= k < i && ids@[k] == id && flags@[k],
        decreases ids@.len() - i,
    {
        let ghost before = out@;
        if flags[i] {
            out.push(ids[i]);
            proof {
                lemma_push_contains(before, ids@[i as int]);
                if strictly_ascending(ids@) {
                    lemma_push_ascending(before, ids@[i as int]);
                }
            }
        }
        proof {
            if strictly_ascending(ids@) && i + 1 < ids@.len() {
                assert forall|q: int| 0 <= q < out@.len() implies #[trigger] out@[q].value() < ids@[i + 1].value() by {
                    assert(ids@[i as int].value() < ids@[i + 1].value());
                    if q < before.len() {
                        assert(out@[q] == before[q]);
                    }
                }
            }
            assert forall|id: EntryId| #[trigger] out@.contains(id) <==> exists|k: int| 0 <= k < i + 1 && ids@[k] == id && flags@[k] by {
                if exists|k: int| 0 <= k < i + 1 && ids@[k] == id && flags@[k] {
                    let k = choose|k: int| 0 <= k < i + 1 && ids@[k] == id && flags@[k];
                    if k < i {
                        assert(exists|k2: int| 0 <= k2 < i && ids@[k2] == id && flags@[k2]);
                    }
                }
            }
        }
        i = i + 1;
    }
    out
}

spec fn id_with_value(i: nat) -> EntryId {
    EntryId(i as u32)
}

proof fn lemma_id_with_value(i: nat)
    requires
        i <= u32::MAX,
    ensures
        id_with_value(i).value() == i,
{
}

/// Every value that fits in 32 bits is some identifier's.
pub proof fn lemma_entry_id_exists(i: nat)
    requires
        i <= u32::MAX,
    ensures
        exists|id: EntryId| #[trigger] id.value() == i,
{
    assert(id_with_value(i).value() == i);
}

// ---------------------------------------------------------------------------
// Exact paths
// ---------------------------------------------------------------------------

/// Paths equal to a query up to ASCII case.
pub struct ExactPathIndex {
    paths: FingerprintIndex,
}

impl ExactPathIndex {
    #[verifier::type_invariant]
    spec fn inv(&self) -> bool {
        self.paths.wf()
    }

    /// The index holds every path of `table`.
    pub closed spec fn indexes(&self, table: &EntryTable) -> bool {
        forall|i: nat| i < table@.len() ==> #[trigger] self.paths.has(fingerprint(table@[i as int].path), id_with_value(i))
    }

    pub fn build(table: &EntryTable) -> (r: Self)
        ensures
            r.indexes(table),
    {
        proof {
            use_type_invariant(table);
        }
        let mut pairs: Vec<(u32, EntryId)> = Vec::new();
        let mut i: usize = 0;
        while i < table.entries.len()
            invariant
                i <= table.entries@.len(),
                forall|k: int| 0 <= k < table.entries@.len() ==> entry_fits(table.arena@, #[trigger] table.entries@[k])
                    && table.entries@[k].id.0 == k,
                forall|k: nat| k < i ==> #[trigger] pairs@.contains((fingerprint(table@[k as int].path), id_with_value(k))),
            decreases table.entries@.len() - i,
        {
            let e = &table.entries[i];
            let ghost before = pairs@;
            match table.text(e.path) {
                Some(v) => {
                    let fp = text_fingerprint(v.as_slice());
                    pairs.push((fp, e.id));
                    proof {
                        lemma_push_pair_contains(before, (fp, e.id));
                        assert(table@[i as int].path == v@);
                        assert(e.id == id_with_value(i as nat));
                    }
                },
                None => {
                    assert(false);
                },
            }
            i = i + 1;
        }
        ExactPathIndex { paths: FingerprintIndex::from_pairs(pairs) }
    }

    /// Identifiers, ascending, of entries whose path equals `path` up to ASCII case.
    pub fn lookup(&self, table: &EntryTable, path: &str) -> (r: Vec<EntryId>)
        ensures
            strictly_ascending(r@),
            forall|id: EntryId| #[trigger] r@.contains(id) ==> id.value() < table@.len() && lower(
                table@[id.value() as int].path,
            ) == lower(path@),
            self.indexes(table) ==> lists_exactly(
                r@,
                table@.len(),
                |i: nat| lower(table@[i as int].path) == lower(path@),
            ),
    {
        proof {
            use_type_invariant(self);
        }
        let query = chars_of(path);
        let ids = self.paths.matching_ids(text_fingerprint(query.as_slice()));
        let mut flags: Vec<bool> = Vec::new();
        let mut k: usize = 0;
        while k < ids.len()
            invariant
                k <= ids@.len(),
                flags@.len() == k,
                query@ == path@,
                forall|q: int| 0 <= q < k ==> #[trigger] flags@[q] == (ids@[q].value() < table@.len()
                    && lower(table@[ids@[q].value() as int].path) == lower(path@)),
            decreases ids@.len() - k,
        {
            let keep = match table.path_by_id(ids[k]) {
                Some(candidate) => {
                    let c = chars_of(candidate.as_str());
                    eq_ignore_ascii_case(c.as_slice(), query.as_slice())
                },
                None => false,
            };
            flags.push(keep);
            k = k + 1;
        }
        let r = select_ids(&ids, &flags);
        proof {
            assert forall|id: EntryId| #[trigger] r@.contains(id) implies id.value() < table@.len() && lower(
                table@[id.value() as int].path) == lower(path@) by {
                let q = choose|q: int| 0 <= q < ids@.len() && ids@[q] == id && flags@[q];
            }
            if self.indexes(table) {
                assert forall|id: EntryId| #[trigger] r@.contains(id) <==> (id.value() < table@.len()
                    && lower(table@[id.value() as int].path) == lower(path@)) by {
                    if id.value() < table@.len() && lower(table@[id.value() as int].path) == lower(path@) {
                        let i = id.value();
                        lemma_fingerprint_ignores_ascii_case(table@[i as int].path, path@);
                        assert(self.paths.has(fingerprint(table@[i as int].path), id_with_value(i)));
                        assert(id_with_value(i) == id);
                        assert(ids@.contains(id));
                        let q = choose|q: int| 0 <= q < ids@.len() && ids@[q] == id;
                        assert(flags@[q]);
                    }
                }
            }
        }
        r
    }
}

impl Clone for ExactPathIndex {
    fn clone(&self) -> (r: Self)
        ensures
            forall|t: &EntryTable| self.indexes(t) ==> r.indexes(t),
    {
        proof {
            use_type_invariant(self);
        }
        let r = ExactPathIndex { paths: self.paths.duplicate() };
        assert(forall|fp: u32, id: EntryId| r.paths.has(fp, id) == self.paths.has(fp, id));
        r
    }
}

impl Default for ExactPathIndex {
    fn default() -> (r: Self)
        ensures
            forall|t: &EntryTable| t@.len() == 0 ==> r.indexes(t),
    {
        ExactPathIndex { paths: FingerprintIndex::empty() }
    }
}

proof fn lemma_push_pair_contains(s: Seq<(u32, EntryId)>, x: (u32, EntryId))
    ensures
        forall|p: (u32, EntryId)| #[trigger] s.push(x).contains(p) <==> (s.contains(p) || p == x),
{
    assert forall|p: (u32, EntryId)| #[trigger] s.push(x).contains(p) <==> (s.contains(p) || p == x) by {
        if s.push(x).contains(p) {
            let k = choose|k: int| 0 <= k < s.len() + 1 && s.push(x)[k] == p;
            if k < s.len() {
                assert(s[k] == p);
            }
        }
        if s.contains(p) {
            let k = choose|k: int| 0 <= k < s.len() && s[k] == p;
            assert(s.push(x)[k] == p);
        }
        if p == x {
            assert(s.push(x)[s.len() as int] == p);
        }
    }
}

// ---------------------------------------------------------------------------
// Extensions
// ---------------------------------------------------------------------------

/// The extension a `type:` value asks for: leading dots removed, ASCII lower-cased.
pub open spec fn extension_query(value: Seq<char>) -> Seq<char> {
    lower(trim_start_char(value, '.'))
}

/// The entry's extension is there and equals `query` up to ASCII case.
pub open spec fn extension_matches(candidate: Option<Seq<char>>, query: Seq<char>) -> bool {
    match candidate {
        Some(c) => lower(c) == query,
        None => false,
    }
}

spec fn extension_posted(index: FingerprintIndex, candidate: Option<Seq<char>>, id: EntryId) -> bool {
    match candidate {
        Some(c) => index.has(fingerprint(c), id),
        None => true,
    }
}

spec fn extension_paired(pairs: Seq<(u32, EntryId)>, candidate: Option<Seq<char>>, id: EntryId) -> bool {
    match candidate {
        Some(c) => pairs.contains((fingerprint(c), id)),
        None => true,
    }
}

impl EntryTable {
    /// The extension that `entry` is found under.
    fn candidate_extension_of(&self, entry: &CompactEntry) -> (r: Option<Vec<char>>)
        ensures
            match r {
                Some(v) => candidate_extension(self.model_of(*entry)) == Some(v@),
                None => candidate_extension(self.model_of(*entry)) is None,
            },
    {
        match self.text(entry.extension) {
            Some(v) => Some(v),
            None => {
                let name = match self.text(entry.name) {
                    Some(n) => n,
                    None => Vec::new(),
                };
                proof {
                    assert(name@ == self.model_of(*entry).name);
                }
                entry_name_extension(name.as_slice())
            },
        }
    }
}

/// Entries by extension, their own or their name's.
pub struct ExtensionIndex {
    extensions: FingerprintIndex,
}

impl ExtensionIndex {
    #[verifier::type_invariant]
    spec fn inv(&self) -> bool {
        self.extensions.wf()
    }

    /// The index holds the extension of every entry of `table`.
    pub closed spec fn indexes(&self, table: &EntryTable) -> bool {
        forall|i: nat|
            i < table@.len() ==> extension_posted(self.extensions, #[trigger] candidate_extension(table@[i as int]), id_with_value(i))
    }

    pub fn build(table: &EntryTable) -> (r: Self)
        ensures
            r.indexes(table),
    {
        proof {
            use_type_invariant(table);
        }
        let mut pairs: Vec<(u32, EntryId)> = Vec::new();
        let mut i: usize = 0;
        while i < table.entries.len()
            invariant
                i <= table.entries@.len(),
                forall|k: int| 0 <= k < table.entries@.len() ==> entry_fits(table.arena@, #[trigger] table.entries@[k])
                    && table.entries@[k].id.0 == k,
                forall|k: nat| k < i ==> extension_paired(pairs@, #[trigger] candidate_extension(table@[k as int]), id_with_value(k)),
            decreases table.entries@.len() - i,
        {
            let e = &table.entries[i];
            let ghost before = pairs@;
            proof {
                assert(table@[i as int] == table.model_of(*e));
            }
            match table.candidate_extension_of(e) {
                Some(v) => {
                    let fp = text_fingerprint(v.as_slice());
                    pairs.push((fp, e.id));
                    proof {
                        lemma_push_pair_contains(before, (fp, e.id));
                        assert(e.id == id_with_value(i as nat));
                    }
                },
                None => {},
            }
            proof {
                assert forall|k: nat| k < i + 1 implies extension_paired(pairs@, #[trigger] candidate_extension(table@[k as int]), id_with_value(k)) by {
                    if k < i {
                        match candidate_extension(table@[k as int]) {
                            Some(c) => {
                                assert(extension_paired(before, candidate_extension(table@[k as int]), id_with_value(k)));
                                assert(before.contains((fingerprint(c), id_with_value(k))));
                                if pairs@ != before {
                                    lemma_push_pair_contains(before, pairs@.last());
                                    assert(pairs@ == before.push(pairs@.last()));
                                }
                            },
                            None => {},
                        }
                    }
                }
            }
            i = i + 1;
        }
        ExtensionIndex { extensions: FingerprintIndex::from_pairs(pairs) }
    }

    /// Identifiers, ascending, of entries found under the extension `extension`
    /// (leading dots ignored, ASCII case ignored).
    pub fn lookup(&self, table: &EntryTable, extension: &str) -> (r: Vec<EntryId>)
        ensures
            strictly_ascending(r@),
            forall|id: EntryId| #[trigger] r@.contains(id) ==> id.value() < table@.len()
                && extension_matches(candidate_extension(table@[id.value() as int]), extension_query(extension@)),
            self.indexes(table) ==> lists_exactly(
                r@,
                table@.len(),
                |i: nat| extension_matches(candidate_extension(table@[i as int]), extension_query(extension@)),
            ),
    {
        proof {
            use_type_invariant(self);
            use_type_invariant(table);
        }
        let raw = chars_of(extension);
        let trimmed = trim_start_matches(raw.as_slice(), '.');
        let normalized = lower_chars(trimmed.as_slice());
        proof {
            lemma_lower_idempotent(trimmed@);
        }
        let ids = self.extensions.matching_ids(text_fingerprint(normalized.as_slice()));
        let mut flags: Vec<bool> = Vec::new();
        let mut k: usize = 0;
        while k < ids.len()
            invariant
                k <= ids@.len(),
                flags@.len() == k,
                normalized@ == extension_query(extension@),
                lower(normalized@) == normalized@,
                forall|q: int| 0 <= q < k ==> #[trigger] flags@[q] == (ids@[q].value() < table@.len()
                    && extension_matches(candidate_extension(table@[ids@[q].value() as int]), extension_query(extension@))),
            decreases ids@.len() - k,
        {
            let keep = match table.get(ids[k]) {
                Some(e) => match table.candidate_extension_of(e) {
                    Some(c) => eq_ignore_ascii_case(c.as_slice(), normalized.as_slice()),
                    None => false,
                },
                None => false,
            };
            flags.push(keep);
            k = k + 1;
        }
        let r = select_ids(&ids, &flags);
        proof {
            assert forall|id: EntryId| #[trigger] r@.contains(id) implies id.value() < table@.len()
                && extension_matches(candidate_extension(table@[id.value() as int]), extension_query(extension@)) by {
                let q = choose|q: int| 0 <= q < ids@.len() && ids@[q] == id && flags@[q];
            }
            if self.indexes(table) {
                assert forall|id: EntryId| #[trigger] r@.contains(id) <==> (id.value() < table@.len()
                    && extension_matches(candidate_extension(table@[id.value() as int]), extension_query(extension@))) by {
                    if id.value() < table@.len() {
                        let i = id.value();
                        match candidate_extension(table@[i as int]) {
                            Some(c) => {
                                if lower(c) == extension_query(extension@) {
                                    lemma_fingerprint_ignores_ascii_case(c, normalized@);
                                    assert(extension_posted(self.extensions, candidate_extension(table@[i as int]), id_with_value(i)));
                                    assert(self.extensions.has(fingerprint(c), id_with_value(i)));
                                    assert(id_with_value(i) == id);
                                    assert(ids@.contains(id));
                                    let q = choose|q: int| 0 <= q < ids@.len() && ids@[q] == id;
                                    assert(flags@[q]);
                                }
                            },
                            None => {},
                        }
                    }
                }
            }
        }
        r
    }
}

impl Clone for ExtensionIndex {
    fn clone(&self) -> (r: Self)
        ensures
            forall|t: &EntryTable| self.indexes(t) ==> r.indexes(t),
    {
        proof {
            use_type_invariant(self);
        }
        let r = ExtensionIndex { extensions: self.extensions.duplicate() };
        assert(forall|fp: u32, id: EntryId| r.extensions.has(fp, id) == self.extensions.has(fp, id));
        r
    }
}

impl Default for ExtensionIndex {
    fn default() -> (r: Self)
        ensures
            forall|t: &EntryTable| t@.len() == 0 ==> r.indexes(t),
    {
        ExtensionIndex { extensions: FingerprintIndex::empty() }
    }
}

// ---------------------------------------------------------------------------
// Sorting keyed identifiers
// ---------------------------------------------------------------------------

/// Lexicographic order on `(key, id)` pairs.
spec fn keyed_lt(a: (u64, u32), b: (u64, u32)) -> bool {
    a.0 < b.0 || (a.0 == b.0 && a.1 < b.1)
}

spec fn keyed_sorted(s: Seq<(u64, u32)>) -> bool {
    forall|i: int, j: int| 0 <= i < j < s.len() ==> keyed_lt(#[trigger] s[i], #[trigger] s[j])
}

fn keyed_less(a: (u64, u32), b: (u64, u32)) -> (r: bool)
    ensures
        r == keyed_lt(a, b),
{
    a.0 < b.0 || (a.0 == b.0 && a.1 < b.1)
}

proof fn lemma_keyed_push_contains(s: Seq<(u64, u32)>, x: (u64, u32))
    ensures
        forall|p: (u64, u32)| #[trigger] s.push(x).contains(p) <==> (s.contains(p) || p == x),
{
    assert forall|p: (u64, u32)| #[trigger] s.push(x).contains(p) <==> (s.contains(p) || p == x) by {
        if s.push(x).contains(p) {
            let k = choose|k: int| 0 <= k < s.len() + 1 && s.push(x)[k] == p;
            if k < s.len() {
                assert(s[k] == p);
            }
        }
        if s.contains(p) {
            let k = choose|k: int| 0 <= k < s.len() && s[k] == p;
            assert(s.push(x)[k] == p);
        }
        if p == x {
            assert(s.push(x)[s.len() as int] == p);
        }
    }
}

proof fn lemma_keyed_take_next(s: Seq<(u64, u32)>, i: int)
    requires
        0 <= i < s.len(),
    ensures
        forall|p: (u64, u32)| #[trigger] s.take(i + 1).contains(p) <==> (s.take(i).contains(p) || p == s[i]),
{
    assert(s.take(i + 1) =~= s.take(i).push(s[i]));
    lemma_keyed_push_contains(s.take(i), s[i]);
}

proof fn lemma_keyed_push_sorted(s: Seq<(u64, u32)>, x: (u64, u32))
    requires
        keyed_sorted(s),
        forall|k: int| 0 <= k < s.len() ==> keyed_lt(#[trigger] s[k], x),
    ensures
        keyed_sorted(s.push(x)),
{
    assert forall|i: int, j: int| 0 <= i < j < s.push(x).len() implies keyed_lt(#[trigger] s.push(x)[i], #[trigger] s.push(x)[j]) by {
        assert(s.push(x)[i] == s[i]);
        if j < s.len() {
            assert(s.push(x)[j] == s[j]);
        }
    }
}

/// Merges two sorted pair lists into one sorted list without repeats.
fn merge_keyed(a: Vec<(u64, u32)>, b: Vec<(u64, u32)>) -> (r: Vec<(u64, u32)>)
    requires
        keyed_sorted(a@),
        keyed_sorted(b@),
    ensures
        keyed_sorted(r@),
        forall|p: (u64, u32)| #[trigger] r@.contains(p) <==> (a@.contains(p) || b@.contains(p)),
        r@.len() <= a@.len() + b@.len(),
{
    let mut out: Vec<(u64, u32)> = Vec::new();
    let mut i: usize = 0;
    let mut j: usize = 0;
    while i < a.len() || j < b.len()
        invariant
            i <= a@.len(),
            j <= b@.len(),
            keyed_sorted(a@),
            keyed_sorted(b@),
            keyed_sorted(out@),
            out@.len() <= i + j,
            forall|p: (u64, u32)| #[trigger] out@.contains(p) <==> (a@.take(i as int).contains(p) || b@.take(j as int).contains(p)),
            i < a@.len() ==> forall|k: int| 0 <= k < out@.len() ==> keyed_lt(#[trigger] out@[k], a@[i as int]),
            j < b@.len() ==> forall|k: int| 0 <= k < out@.len() ==> keyed_lt(#[trigger] out@[k], b@[j as int]),
        decreases a@.len() - i + b@.len() - j,
    {
        let ghost before = out@;
        let ghost i0 = i as int;
        let ghost j0 = j as int;
        let take_a = j >= b.len() || (i < a.len() && keyed_less(a[i], b[j]));
        let take_b = i >= a.len() || (j < b.len() && keyed_less(b[j], a[i]));
        if take_a {
            let x = a[i];
            out.push(x);
            i = i + 1;
            proof {
                lemma_keyed_push_sorted(before, x);
                lemma_keyed_push_contains(before, x);
                lemma_keyed_take_next(a@, i0);
                assert forall|k: int| 0 <= k < out@.len() implies (j < b@.len() ==> keyed_lt(#[trigger] out@[k], b@[j as int]))
                    && (i < a@.len() ==> keyed_lt(out@[k], a@[i as int])) by {
                    if i < a@.len() {
                        assert(keyed_lt(a@[i0], a@[i as int]));
                    }
                    if k < before.len() {
                        assert(out@[k] == before[k]);
                    }
                }
            }
        } else if take_b {
            let x = b[j];
            out.push(x);
            j = j + 1;
            proof {
                lemma_keyed_push_sorted(before, x);
                lemma_keyed_push_contains(before, x);
                lemma_keyed_take_next(b@, j0);
                assert forall|k: int| 0 <= k < out@.len() implies (j < b@.len() ==> keyed_lt(#[trigger] out@[k], b@[j as int]))
                    && (i < a@.len() ==> keyed_lt(out@[k], a@[i as int])) by {
                    if j < b@.len() {
                        assert(keyed_lt(b@[j0], b@[j as int]));
                    }
                    if k < before.len() {
                        assert(out@[k] == before[k]);
                    }
                }
            }
        } else {
            let x = a[i];
            out.push(x);
            i = i + 1;
            j = j + 1;
            proof {
                assert(a@[i0] == b@[j0]);
                lemma_keyed_push_sorted(before, x);
                lemma_keyed_push_contains(before, x);
                lemma_keyed_take_next(a@, i0);
                lemma_keyed_take_next(b@, j0);
                assert forall|k: int| 0 <= k < out@.len() implies (j < b@.len() ==> keyed_lt(#[trigger] out@[k], b@[j as int]))
                    && (i < a@.len() ==> keyed_lt(out@[k], a@[i as int])) by {
                    if i < a@.len() {
                        assert(keyed_lt(a@[i0], a@[i as int]));
                    }
                    if j < b@.len() {
                        assert(keyed_lt(b@[j0], b@[j as int]));
                    }
                    if k < before.len() {
                        assert(out@[k] == before[k]);
                    }
                }
            }
        }
    }
    proof {
        assert(a@.take(a@.len() as int) =~= a@);
        assert(b@.take(b@.len() as int) =~= b@);
    }
    out
}

/// The distinct pairs of `v`, sorted (a merge sort).
fn sort_keyed(v: &[(u64, u32)]) -> (r: Vec<(u64, u32)>)
    ensures
        keyed_sorted(r@),
        forall|p: (u64, u32)| #[trigger] r@.contains(p) <==> v@.contains(p),
        r@.len() <= v@.len(),
    decreases v@.len(),
{
    let n = v.len();
    if n == 0 {
        return Vec::new();
    }
    if n == 1 {
        let mut out: Vec<(u64, u32)> = Vec::new();
        out.push(v[0]);
        proof {
            assert forall|p: (u64, u32)| #[trigger] out@.contains(p) <==> v@.contains(p) by {
                if v@.contains(p) {
                    let k = choose|k: int| 0 <= k < v@.len() && v@[k] == p;
                    assert(k == 0);
                    assert(out@[0] == p);
                }
                if out@.contains(p) {
                    let k = choose|k: int| 0 <= k < out@.len() && out@[k] == p;
                    assert(v@[0] == p);
                }
            }
        }
        return out;
    }
    let mid = n / 2;
    let (left, right) = v.split_at(mid);
    let a = sort_keyed(left);
    let b = sort_keyed(right);
    let r = merge_keyed(a, b);
    proof {
        assert(v@ =~= left@ + right@);
        assert forall|p: (u64, u32)| #[trigger] r@.contains(p) <==> v@.contains(p) by {
            if v@.contains(p) {
                let k = choose|k: int| 0 <= k < v@.len() && v@[k] == p;
                if k < mid {
                    assert(left@[k] == p);
                } else {
                    assert(right@[k - mid] == p);
                }
            }
            if left@.contains(p) {
                let k = choose|k: int| 0 <= k < left@.len() && left@[k] == p;
                assert(v@[k] == p);
            }
            if right@.contains(p) {
                let k = choose|k: int| 0 <= k < right@.len() && right@[k] == p;
                assert(v@[k + mid] == p);
            }
        }
    }
    r
}

// ---------------------------------------------------------------------------
// Variable-length integers
// ---------------------------------------------------------------------------

/// LEB128 bytes of `v`: seven bits per byte, low bits first, the high bit set on
/// every byte but the last.
pub open spec fn varint_bytes(v: u32) -> Seq<u8> {
    if v < 0x80 {
        seq![v as u8]
    } else if v < 0x4000 {
        seq![((v & 0x7f) | 0x80) as u8, (v >> 7) as u8]
    } else if v < 0x20_0000 {
        seq![((v & 0x7f) | 0x80) as u8, (((v >> 7) & 0x7f) | 0x80) as u8, (v >> 14) as u8]
    } else if v < 0x1000_0000 {
        seq![
            ((v & 0x7f) | 0x80) as u8,
            (((v >> 7) & 0x7f) | 0x80) as u8,
            (((v >> 14) & 0x7f) | 0x80) as u8,
            (v >> 21) as u8,
        ]
    } else {
        seq![
            ((v & 0x7f) | 0x80) as u8,
            (((v >> 7) & 0x7f) | 0x80) as u8,
            (((v >> 14) & 0x7f) | 0x80) as u8,
            (((v >> 21) & 0x7f) | 0x80) as u8,
            (v >> 28) as u8,
        ]
    }
}

/// Reads one LEB128 value from the front of `b`: the value and the bytes it took,
/// or none for a truncated input or one that overflows 32 bits.
pub open spec fn varint_decode(b: Seq<u8>) -> Option<(u32, nat)> {
    if b.len() < 1 {
        None
    } else if b[0] & 0x80 == 0 {
        Some(((b[0] & 0x7f) as u32, 1))
    } else if b.len() < 2 {
        None
    } else if b[1] & 0x80 == 0 {
        Some(((b[0] & 0x7f) as u32 | (((b[1] & 0x7f) as u32) << 7u32), 2))
    } else if b.len() < 3 {
        None
    } else if b[2] & 0x80 == 0 {
        Some(
            (
                (b[0] & 0x7f) as u32 | (((b[1] & 0x7f) as u32) << 7u32) | (((b[2] & 0x7f) as u32)
                    << 14u32),
                3,
            ),
        )
    } else if b.len() < 4 {
        None
    } else if b[3] & 0x80 == 0 {
        Some(
            (
                (b[0] & 0x7f) as u32 | (((b[1] & 0x7f) as u32) << 7u32) | (((b[2] & 0x7f) as u32)
                    << 14u32) | (((b[3] & 0x7f) as u32) << 21u32),
                4,
            ),
        )
    } else if b.len() < 5 || b[4] & 0x70 != 0 || b[4] & 0x80 != 0 {
        None
    } else {
        Some(
            (
                (b[0] & 0x7f) as u32 | (((b[1] & 0x7f) as u32) << 7u32) | (((b[2] & 0x7f) as u32)
                    << 14u32) | (((b[3] & 0x7f) as u32) << 21u32) | (((b[4] & 0x7f) as u32)
                    << 28u32),
                5,
            ),
        )
    }
}

/// Decoding the bytes of a value, whatever follows them, gives the value back.
pub proof fn lemma_varint_round_trip(v: u32, rest: Seq<u8>)
    ensures
        varint_decode(varint_bytes(v) + rest) == Some((v, varint_bytes(v).len())),
        1 <= varint_bytes(v).len() <= 5,
{
    let b = varint_bytes(v) + rest;
    if v < 0x80 {
        assert(b[0] == v as u8);
        assert((v as u8) & 0x80 == 0 && ((v as u8) & 0x7f) as u32 == v) by (bit_vector)
            requires v < 0x80u32;
    } else if v < 0x4000 {
        assert(b[0] == ((v & 0x7f) | 0x80) as u8 && b[1] == (v >> 7) as u8);
        assert({
            let b0 = ((v & 0x7f) | 0x80) as u8;
            let b1 = (v >> 7) as u8;
            &&& b0 & 0x80 != 0
            &&& b1 & 0x80 == 0
            &&& ((b0 & 0x7f) as u32 | (((b1 & 0x7f) as u32) << 7u32)) == v
        }) by (bit_vector)
            requires 0x80u32 <= v < 0x4000u32;
    } else if v < 0x20_0000 {
        assert(b[0] == ((v & 0x7f) | 0x80) as u8 && b[1] == (((v >> 7) & 0x7f) | 0x80) as u8
            && b[2] == (v >> 14) as u8);
        assert({
            let b0 = ((v & 0x7f) | 0x80) as u8;
            let b1 = (((v >> 7) & 0x7f) | 0x80) as u8;
            let b2 = (v >> 14) as u8;
            &&& b0 & 0x80 != 0
            &&& b1 & 0x80 != 0
            &&& b2 & 0x80 == 0
            &&& ((b0 & 0x7f) as u32 | (((b1 & 0x7f) as u32) << 7u32) | (((b2 & 0x7f) as u32)
                << 14u32)) == v
        }) by (bit_vector)
            requires 0x4000u32 <= v < 0x20_0000u32;
    } else if v < 0x1000_0000 {
        assert(b[0] == ((v & 0x7f) | 0x80) as u8 && b[1] == (((v >> 7) & 0x7f) | 0x80) as u8
            && b[2] == (((v >> 14) & 0x7f) | 0x80) as u8 && b[3] == (v >> 21) as u8);
        assert({
            let b0 = ((v & 0x7f) | 0x80) as u8;
            let b1 = (((v >> 7) & 0x7f) | 0x80) as u8;
            let b2 = (((v >> 14) & 0x7f) | 0x80) as u8;
            let b3 = (v >> 21) as u8;
            &&& b0 & 0x80 != 0
            &&& b1 & 0x80 != 0
            &&& b2 & 0x80 != 0
            &&& b3 & 0x80 == 0
            &&& ((b0 & 0x7f) as u32 | (((b1 & 0x7f) as u32) << 7u32) | (((b2 & 0x7f) as u32)
                << 14u32) | (((b3 & 0x7f) as u32) << 21u32)) == v
        }) by (bit_vector)
            requires 0x20_0000u32 <= v < 0x1000_0000u32;
    } else {
        assert(b[0] == ((v & 0x7f) | 0x80) as u8 && b[1] == (((v >> 7) & 0x7f) | 0x80) as u8
            && b[2] == (((v >> 14) & 0x7f) | 0x80) as u8 && b[3] == (((v >> 21) & 0x7f) | 0x80) as u8
            && b[4] == (v >> 28) as u8);
        assert({
            let b0 = ((v & 0x7f) | 0x80) as u8;
            let b1 = (((v >> 7) & 0x7f) | 0x80) as u8;
            let b2 = (((v >> 14) & 0x7f) | 0x80) as u8;
            let b3 = (((v >> 21) & 0x7f) | 0x80) as u8;
            let b4 = (v >> 28) as u8;
            &&& b0 & 0x80 != 0
            &&& b1 & 0x80 != 0
            &&& b2 & 0x80 != 0
            &&& b3 & 0x80 != 0
            &&& b4 & 0x70 == 0
            &&& b4 & 0x80 == 0
            &&& ((b0 & 0x7f) as u32 | (((b1 & 0x7f) as u32) << 7u32) | (((b2 & 0x7f) as u32)
                << 14u32) | (((b3 & 0x7f) as u32) << 21u32) | (((b4 & 0x7f) as u32) << 28u32)) == v
        }) by (bit_vector)
            requires 0x1000_0000u32 <= v;
    }
}

/// Appends the LEB128 bytes of `value`.
fn encode_varint(value: u32, output: &mut Vec<u8>)
    ensures
        final(output)@ == old(output)@ + varint_bytes(value),
{
    let ghost before = output@;
    if value < 0x80 {
        output.push(value as u8);
    } else if value < 0x4000 {
        output.push(((value & 0x7f) | 0x80) as u8);
        output.push((value >> 7) as u8);
    } else if value < 0x20_0000 {
        output.push(((value & 0x7f) | 0x80) as u8);
        output.push((((value >> 7) & 0x7f) | 0x80) as u8);
        output.push((value >> 14) as u8);
    } else if value < 0x1000_0000 {
        output.push(((value & 0x7f) | 0x80) as u8);
        output.push((((value >> 7) & 0x7f) | 0x80) as u8);
        output.push((((value >> 14) & 0x7f) | 0x80) as u8);
        output.push((value >> 21) as u8);
    } else {
        output.push(((value & 0x7f) | 0x80) as u8);
        output.push((((value >> 7) & 0x7f) | 0x80) as u8);
        output.push((((value >> 14) & 0x7f) | 0x80) as u8);
        output.push((((value >> 21) & 0x7f) | 0x80) as u8);
        output.push((value >> 28) as u8);
    }
    assert(output@ =~= before + varint_bytes(value));
}

/// Reads one LEB128 value at `at`.
fn decode_varint(input: &[u8], at: usize) -> (r: Option<(u32, usize)>)
    requires
        at <= input@.len(),
    ensures
        match r {
            Some((v, n)) => varint_decode(input@.skip(at as int)) == Some((v, n as nat)),
            None => varint_decode(input@.skip(at as int)) is None,
        },
{
    let len = input.len();
    let rest = len - at;
    let ghost b = input@.skip(at as int);
    if rest < 1 {
        return None;
    }
    let b0 = input[at];
    assert(b[0] == b0);
    if b0 & 0x80 == 0 {
        return Some(((b0 & 0x7f) as u32, 1));
    }
    if rest < 2 {
        return None;
    }
    let b1 = input[at + 1];
    assert(b[1] == b1);
    if b1 & 0x80 == 0 {
        return Some(((b0 & 0x7f) as u32 | (((b1 & 0x7f) as u32) << 7u32), 2));
    }
    if rest < 3 {
        return None;
    }
    let b2 = input[at + 2];
    assert(b[2] == b2);
    if b2 & 0x80 == 0 {
        return Some(
            (
                (b0 & 0x7f) as u32 | (((b1 & 0x7f) as u32) << 7u32) | (((b2 & 0x7f) as u32) << 14u32),
                3,
            ),
        );
    }
    if rest < 4 {
        return None;
    }
    let b3 = input[at + 3];
    assert(b[3] == b3);
    if b3 & 0x80 == 0 {
        return Some(
            (
                (b0 & 0x7f) as u32 | (((b1 & 0x7f) as u32) << 7u32) | (((b2 & 0x7f) as u32) << 14u32)
                    | (((b3 & 0x7f) as u32) << 21u32),
                4,
            ),
        );
    }
    if rest < 5 {
        return None;
    }
    let b4 = input[at + 4];
    assert(b[4] == b4);
    if b4 & 0x70 != 0 || b4 & 0x80 != 0 {
        return None;
    }
    Some(
        (
            (b0 & 0x7f) as u32 | (((b1 & 0x7f) as u32) << 7u32) | (((b2 & 0x7f) as u32) << 14u32) | (((b3
                & 0x7f) as u32) << 21u32) | (((b4 & 0x7f) as u32) << 28u32),
            5,
        ),
    )
}

/// Bytes of an identifier list: each identifier as its difference from the one
/// before (the first from `prev`), in LEB128.
pub open spec fn delta_bytes(ids: Seq<u32>, prev: u32) -> Seq<u8>
    decreases ids.len(),
{
    if ids.len() == 0 {
        Seq::empty()
    } else {
        varint_bytes((ids[0] - prev) as u32) + delta_bytes(ids.drop_first(), ids[0])
    }
}

/// Reads identifiers back from their differences; none when the bytes are cut
/// short or a sum leaves 32 bits.
pub open spec fn delta_decode(bytes: Seq<u8>, prev: u32) -> Option<Seq<u32>>
    decreases bytes.len(),
{
    if bytes.len() == 0 {
        Some(Seq::empty())
    } else {
        match varint_decode(bytes) {
            None => None,
            Some((d, n)) => {
                if prev + d > u32::MAX || n == 0 || n > bytes.len() {
                    None
                } else {
                    let v = (prev + d) as u32;
                    match delta_decode(bytes.skip(n as int), v) {
                        Some(rest) => Some(seq![v] + rest),
                        None => None,
                    }
                }
            },
        }
    }
}

/// Identifiers in strictly ascending order, none below `prev`.
pub open spec fn ascending_from(ids: Seq<u32>, prev: u32) -> bool {
    &&& (ids.len() > 0 ==> prev <= ids[0])
    &&& forall|i: int, j: int| 0 <= i < j < ids.len() ==> #[trigger] ids[i] < #[trigger] ids[j]
}

/// Decoding the encoded differences of an ascending list gives the list back.
pub proof fn lemma_delta_round_trip(ids: Seq<u32>, prev: u32)
    requires
        ascending_from(ids, prev),
    ensures
        delta_decode(delta_bytes(ids, prev), prev) == Some(ids),
    decreases ids.len(),
{
    if ids.len() > 0 {
        let d = (ids[0] - prev) as u32;
        let tail = ids.drop_first();
        let rest = delta_bytes(tail, ids[0]);
        let bytes = delta_bytes(ids, prev);
        lemma_varint_round_trip(d, rest);
        assert(bytes == varint_bytes(d) + rest);
        let n = varint_bytes(d).len();
        assert(bytes.skip(n as int) =~= rest);
        assert(ascending_from(tail, ids[0])) by {
            if tail.len() > 0 {
                assert(ids[0] < ids[1]);
            }
            assert forall|i: int, j: int| 0 <= i < j < tail.len() implies #[trigger] tail[i] < #[trigger] tail[j] by {
                assert(ids[i + 1] < ids[j + 1]);
            }
        }
        lemma_delta_round_trip(tail, ids[0]);
        assert(seq![ids[0]] + tail =~= ids);
    } else {
        assert(delta_bytes(ids, prev) =~= Seq::<u8>::empty());
    }
}

spec fn prepend_decoded(done: Seq<u32>, rest: Option<Seq<u32>>) -> Option<Seq<u32>> {
    match rest {
        Some(r) => Some(done + r),
        None => None,
    }
}

/// Decodes the identifier list stored in `bytes[start..end]`; empty when the
/// range or the bytes are not a valid list.
fn decode_ids(bytes: &Vec<u8>, start: usize, end: usize) -> (r: Vec<EntryId>)
    ensures
        start <= end <= bytes@.len() ==> match delta_decode(bytes@.subrange(start as int, end as int), 0) {
            Some(ids) => r@.len() == ids.len() && forall|k: int| 0 <= k < ids.len() ==> #[trigger] r@[k].value() == ids[k],
            None => r@.len() == 0,
        },
        !(start <= end <= bytes@.len()) ==> r@.len() == 0,
{
    if !(start <= end && end <= bytes.len()) {
        return Vec::new();
    }
    let ghost all = bytes@.subrange(start as int, end as int);
    let mut out: Vec<EntryId> = Vec::new();
    let ghost mut vals: Seq<u32> = Seq::empty();
    let mut offset: usize = start;
    let mut previous: u32 = 0;
    while offset < end
        invariant
            start <= offset <= end <= bytes@.len(),
            all == bytes@.subrange(start as int, end as int),
            out@.len() == vals.len(),
            forall|k: int| 0 <= k < vals.len() ==> #[trigger] out@[k].value() == vals[k],
            delta_decode(all, 0) == prepend_decoded(vals, delta_decode(bytes@.subrange(offset as int, end as int), previous)),
        decreases end - offset,
    {
        let ghost here = bytes@.subrange(offset as int, end as int);
        let window = bytes.as_slice().split_at(end).0;
        assert(window@ =~= bytes@.subrange(0, end as int));
        assert(window@.skip(offset as int) =~= here);
        match decode_varint(window, offset) {
            None => {
                proof {
                    assert(delta_decode(here, previous) is None);
                }
                return Vec::new();
            },
            Some((delta, consumed)) => {
                match previous.checked_add(delta) {
                    None => {
                        proof {
                            assert(delta_decode(here, previous) is None);
                        }
                        return Vec::new();
                    },
                    Some(value) => {
                        if consumed == 0 || consumed > end - offset {
                            proof {
                                assert(delta_decode(here, previous) is None);
                            }
                            return Vec::new();
                        }
                        proof {
                            assert(here.skip(consumed as int) =~= bytes@.subrange(offset + consumed, end as int));
                            let tail = delta_decode(here.skip(consumed as int), value);
                            assert(delta_decode(here, previous) == match tail {
                                Some(t) => Some(seq![value] + t),
                                None => None,
                            });
                            match tail {
                                Some(t) => {
                                    assert(vals + (seq![value] + t) =~= vals.push(value) + t);
                                },
                                None => {},
                            }
                        }
                        out.push(EntryId(value));
                        proof {
                            vals = vals.push(value);
                        }
                        previous = value;
                        offset = offset + consumed;
                    },
                }
            },
        }
    }
    proof {
        assert(bytes@.subrange(offset as int, end as int).len() == 0);
        assert(vals + Seq::<u32>::empty() =~= vals);
    }
    out
}

// ---------------------------------------------------------------------------
// Name n-grams
// ---------------------------------------------------------------------------

/// The sort key of an n-gram: its width, then its fingerprint.
pub open spec fn ngram_key(width: int, fp: u32) -> int {
    width * 0x1_0000_0000 + fp
}

/// The ASCII lower-cased characters `p .. p + width` of a name.
pub open spec fn name_window(name: Seq<char>, width: int, p: int) -> Seq<char> {
    lower(name).subrange(p, p + width)
}

/// The n-gram a term is looked up by: its first three characters, ASCII lower-cased.
pub open spec fn query_ngram(term: Seq<char>) -> Seq<char> {
    lower(term).take(if term.len() < 3 {
        term.len() as int
    } else {
        3
    })
}

proof fn lemma_ngram_key_parts(width: u64, fp: u32)
    requires
        width <= 3,
    ensures
        (width * 0x1_0000_0000 + fp as u64) / 0x1_0000_0000 == width,
        (width * 0x1_0000_0000 + fp as u64) % 0x1_0000_0000 == fp,
{
}

#[derive(Debug, Clone, Copy, PartialEq, Eq, Structural)]
struct NameNgramPosting {
    width: u8,
    fingerprint: u32,
    start: u32,
    len: u32,
}

spec fn posting_key(p: NameNgramPosting) -> int {
    ngram_key(p.width as int, p.fingerprint)
}

spec fn group_bytes(encoded: Seq<u8>, p: NameNgramPosting) -> Seq<u8> {
    encoded.subrange(p.start as int, p.start + p.len)
}

spec fn group_ok(encoded: Seq<u8>, p: NameNgramPosting) -> bool {
    &&& p.start + p.len <= encoded.len()
    &&& match delta_decode(group_bytes(encoded, p), 0) {
        Some(ids) => ascending_from(ids, 0),
        None => false,
    }
}

spec fn group_of(encoded: Seq<u8>, p: NameNgramPosting) -> Seq<u32> {
    match delta_decode(group_bytes(encoded, p), 0) {
        Some(ids) => ids,
        None => Seq::empty(),
    }
}

/// Entries by the one- to three-character windows of their lower-cased names;
/// each window's identifiers are stored as LEB128 differences.
pub struct NameNgramIndex {
    postings: Vec<NameNgramPosting>,
    encoded_ids: Vec<u8>,
}

proof fn lemma_delta_bytes_push(ids: Seq<u32>, x: u32, prev: u32)
    ensures
        delta_bytes(ids.push(x), prev) == delta_bytes(ids, prev) + varint_bytes(
            (x - (if ids.len() == 0 {
                prev
            } else {
                ids.last()
            })) as u32,
        ),
    decreases ids.len(),
{
    if ids.len() == 0 {
        assert(ids.push(x).drop_first() =~= Seq::<u32>::empty());
        assert(delta_bytes(Seq::<u32>::empty(), x) =~= Seq::<u8>::empty());
        assert(delta_bytes(ids, prev) =~= Seq::<u8>::empty());
        assert(delta_bytes(ids.push(x), prev) =~= varint_bytes((x - prev) as u32));
    } else {
        lemma_delta_bytes_push(ids.drop_first(), x, ids[0]);
        assert(ids.push(x).drop_first() =~= ids.drop_first().push(x));
        if ids.len() == 1 {
            assert(ids.drop_first() =~= Seq::<u32>::empty());
        } else {
            assert(ids.drop_first().last() == ids.last());
        }
    }
}

/// Appends the encoded differences of an ascending identifier list.
fn encode_group(ids: &Vec<u32>, out: &mut Vec<u8>)
    requires
        ascending_from(ids@, 0),
    ensures
        final(out)@ == old(out)@ + delta_bytes(ids@, 0),
{
    let ghost before = out@;
    let mut previous: u32 = 0;
    let mut j: usize = 0;
    while j < ids.len()
        invariant
            j <= ids@.len(),
            ascending_from(ids@, 0),
            out@ == before + delta_bytes(ids@.take(j as int), 0),
            previous == (if j == 0 {
                0
            } else {
                ids@[j - 1]
            }),
        decreases ids@.len() - j,
    {
        let value = ids[j];
        proof {
            if j > 0 {
                assert(ids@[j - 1] < ids@[j as int]);
            }
            lemma_delta_bytes_push(ids@.take(j as int), value, 0);
            assert(ids@.take(j + 1) =~= ids@.take(j as int).push(value));
        }
        encode_varint(value - previous, out);
        proof {
            assert(out@ =~= before + delta_bytes(ids@.take(j + 1), 0));
        }
        previous = value;
        j = j + 1;
    }
    proof {
        assert(ids@.take(ids@.len() as int) =~= ids@);
    }
}

/// Pushes the `(key, id)` pair of every one- to three-character window of a
/// lower-cased name.
fn push_name_keys(keys: &mut Vec<(u64, u32)>, lowered: &[char], id: u32)
    ensures
        forall|p: (u64, u32)| old(keys)@.contains(p) ==> #[trigger] final(keys)@.contains(p),
        forall|w: int, p: int|
            1 <= w <= 3 && 0 <= p && p + w <= lowered@.len() ==> final(keys)@.contains(
                (ngram_key(w, fingerprint(#[trigger] lowered@.subrange(p, p + w))) as u64, id),
            ),
        forall|p: (u64, u32)| #[trigger] final(keys)@.contains(p) ==> old(keys)@.contains(p) || (p.1 == id
            && p.0 < 0x4_0000_0000),
        final(keys)@.len() <= old(keys)@.len() + 3 * lowered@.len(),
{
    let n = lowered.len();
    let mut w: usize = 1;
    while w <= 3
        invariant
            1 <= w <= 4,
            n == lowered@.len(),
            keys@.len() <= old(keys)@.len() + (w - 1) * n,
            forall|p: (u64, u32)| old(keys)@.contains(p) ==> #[trigger] keys@.contains(p),
            forall|p: (u64, u32)| #[trigger] keys@.contains(p) ==> old(keys)@.contains(p) || (p.1 == id
                && p.0 < 0x4_0000_0000),
            forall|ww: int, p: int|
                1 <= ww < w && 0 <= p && p + ww <= lowered@.len() ==> keys@.contains(
                    (ngram_key(ww, fingerprint(#[trigger] lowered@.subrange(p, p + ww))) as u64, id),
                ),
        decreases 4 - w,
    {
        let mut start: usize = 0;
        while w <= n && start <= n - w
            invariant
                1 <= w <= 3,
                n == lowered@.len(),
                start <= n,
                keys@.len() <= old(keys)@.len() + (w - 1) * n + start,
                forall|p: (u64, u32)| old(keys)@.contains(p) ==> #[trigger] keys@.contains(p),
                forall|p: (u64, u32)| #[trigger] keys@.contains(p) ==> old(keys)@.contains(p) || (p.1 == id
                    && p.0 < 0x4_0000_0000),
                forall|ww: int, p: int|
                    1 <= ww < w && 0 <= p && p + ww <= lowered@.len() ==> keys@.contains(
                        (ngram_key(ww, fingerprint(#[trigger] lowered@.subrange(p, p + ww))) as u64, id),
                    ),
                forall|p: int|
                    0 <= p < start && p + w <= lowered@.len() ==> keys@.contains(
                        (ngram_key(w as int, fingerprint(#[trigger] lowered@.subrange(p, p + w))) as u64, id),
                    ),
            decreases n - start,
        {
            let window = slice_chars(lowered, start, start + w);
            let fp = text_fingerprint(window.as_slice());
            let key: u64 = (w as u64) * 0x1_0000_0000 + (fp as u64);
            let ghost before = keys@;
            keys.push((key, id));
            proof {
                lemma_keyed_push_contains(before, (key, id));
            }
            start = start + 1;
        }
        proof {
            let wn = w as int;
            let nn = n as int;
            assert((wn - 1) * nn + nn == wn * nn) by (nonlinear_arith);
        }
        w = w + 1;
    }
}

impl NameNgramIndex {
    #[verifier::type_invariant]
    spec fn inv(&self) -> bool {
        &&& forall|a: int, b: int|
            0 <= a < b < self.postings@.len() ==> posting_key(#[trigger] self.postings@[a]) < posting_key(
                #[trigger] self.postings@[b],
            )
        &&& forall|k: int| 0 <= k < self.postings@.len() ==> group_ok(self.encoded_ids@, #[trigger] self.postings@[k])
    }

    /// The window `p .. p + w` of `name` is posted with identifier `i`.
    spec fn window_posted(&self, name: Seq<char>, i: nat, w: int, p: int) -> bool {
        exists|k: int|
            0 <= k < self.postings@.len() && self.postings@[k].width == w
                && self.postings@[k].fingerprint == fingerprint(name_window(name, w, p))
                && #[trigger] group_of(self.encoded_ids@, self.postings@[k]).contains(i as u32)
    }

    /// Every window of every name of `table` is posted with the entry's identifier.
    pub closed spec fn indexes(&self, table: &EntryTable) -> bool {
        forall|i: nat, w: int, p: int|
            i < table@.len() && 1 <= w <= 3 && 0 <= p && p + w <= table@[i as int].name.len() ==>
            #[trigger] self.window_posted(table@[i as int].name, i, w, p)
    }
}


/// Total number of characters of the entries' names.
pub open spec fn names_len(models: Seq<EntryModel>) -> nat
    decreases models.len(),
{
    if models.len() == 0 {
        0
    } else {
        names_len(models.drop_last()) + models.last().name.len()
    }
}

spec fn group_total(groups: Seq<(u64, Vec<u32>)>) -> nat
    decreases groups.len(),
{
    if groups.len() == 0 {
        0
    } else {
        group_total(groups.drop_last()) + groups.last().1@.len()
    }
}

proof fn lemma_group_total_prefix(groups: Seq<(u64, Vec<u32>)>, g: int)
    requires
        0 <= g <= groups.len(),
    ensures
        group_total(groups.take(g)) <= group_total(groups),
    decreases groups.len() - g,
{
    if g < groups.len() {
        lemma_group_total_prefix(groups, g + 1);
        assert(groups.take(g + 1).drop_last() =~= groups.take(g));
    } else {
        assert(groups.take(g) =~= groups);
    }
}

proof fn lemma_delta_bytes_len(ids: Seq<u32>, prev: u32)
    ensures
        delta_bytes(ids, prev).len() <= 5 * ids.len(),
    decreases ids.len(),
{
    if ids.len() > 0 {
        lemma_varint_round_trip((ids[0] - prev) as u32, Seq::empty());
        lemma_delta_bytes_len(ids.drop_first(), ids[0]);
    }
}

/// Runs of equal keys of a sorted pair list, each with its identifiers ascending.
#[verifier::rlimit(40)]
fn group_sorted(sorted: &Vec<(u64, u32)>) -> (groups: Vec<(u64, Vec<u32>)>)
    requires
        keyed_sorted(sorted@),
        forall|t: (u64, u32)| #[trigger] sorted@.contains(t) ==> t.0 < 0x4_0000_0000,
    ensures
        forall|a: int, b: int| 0 <= a < b < groups@.len() ==> #[trigger] groups@[a].0 < #[trigger] groups@[b].0,
        forall|g: int| 0 <= g < groups@.len() ==> (#[trigger] groups@[g]).1@.len() > 0 && ascending_from(groups@[g].1@, 0)
            && groups@[g].0 < 0x4_0000_0000,
        group_total(groups@) == sorted@.len(),
        forall|x: int| 0 <= x < sorted@.len() ==> exists|g: int| 0 <= g < groups@.len() && groups@[g].0 == (#[trigger] sorted@[x]).0
            && groups@[g].1@.contains(sorted@[x].1),
{
        let mut groups: Vec<(u64, Vec<u32>)> = Vec::new();
        let mut q: usize = 0;
        while q < sorted.len()
            invariant
                q <= sorted@.len(),
                keyed_sorted(sorted@),
                forall|t: (u64, u32)| #[trigger] sorted@.contains(t) ==> t.0 < 0x4_0000_0000,
                forall|a: int, b: int| 0 <= a < b < groups@.len() ==> #[trigger] groups@[a].0 < #[trigger] groups@[b].0,
                forall|g: int| 0 <= g < groups@.len() ==> (#[trigger] groups@[g]).1@.len() > 0 && ascending_from(groups@[g].1@, 0)
                    && groups@[g].0 < 0x4_0000_0000,
                q == 0 ==> groups@.len() == 0,
                group_total(groups@) == q,
                q > 0 ==> groups@.len() > 0 && groups@.last().0 == sorted@[q - 1].0 && groups@.last().1@.last()
                    == sorted@[q - 1].1,
                forall|x: int| 0 <= x < q ==> exists|g: int| 0 <= g < groups@.len() && groups@[g].0 == (#[trigger] sorted@[x]).0
                    && groups@[g].1@.contains(sorted@[x].1),
            decreases sorted@.len() - q,
        {
            let (key, id) = sorted[q];
            proof {
                assert(sorted@.contains(sorted@[q as int]));
            }
            let ghost before = groups@;
            let same = groups.len() > 0 && groups[groups.len() - 1].0 == key;
            if same {
                let (k0, mut ids) = groups.pop().unwrap();
                let ghost ids_before = ids@;
                ids.push(id);
                proof {
                    assert(keyed_lt(sorted@[q - 1], sorted@[q as int]));
                    assert forall|a: int, b: int| 0 <= a < b < ids@.len() implies #[trigger] ids@[a] < #[trigger] ids@[b] by {
                        if b == ids@.len() - 1 {
                            if a < ids_before.len() - 1 {
                                assert(ids_before[a] < ids_before[ids_before.len() - 1]);
                            }
                        } else {
                            assert(ids@[a] == ids_before[a] && ids@[b] == ids_before[b]);
                        }
                    }
                }
                groups.push((k0, ids));
                proof {
                    assert(groups@.drop_last() =~= before.drop_last());
                    let last = groups@.len() - 1;
                    assert forall|x: int| 0 <= x < q + 1 implies exists|g: int| 0 <= g < groups@.len() && groups@[g].0 == (#[trigger] sorted@[x]).0
                        && groups@[g].1@.contains(sorted@[x].1) by {
                        if x == q {
                            assert(groups@[last].1@[groups@[last].1@.len() - 1] == id);
                        } else {
                            let g = choose|g: int| 0 <= g < before.len() && before[g].0 == sorted@[x].0 && before[g].1@.contains(sorted@[x].1);
                            if g < last {
                                assert(groups@[g] == before[g]);
                            } else {
                                let w = choose|w: int| 0 <= w < ids_before.len() && ids_before[w] == sorted@[x].1;
                                assert(groups@[last].1@[w] == sorted@[x].1);
                            }
                        }
                    }
                    assert forall|a: int, b: int| 0 <= a < b < groups@.len() implies #[trigger] groups@[a].0 < #[trigger] groups@[b].0 by {
                        assert(groups@[a].0 == before[a].0 && groups@[b].0 == before[b].0);
                    }
                    assert forall|g: int| 0 <= g < groups@.len() implies (#[trigger] groups@[g]).1@.len() > 0 && ascending_from(groups@[g].1@, 0)
                        && groups@[g].0 < 0x4_0000_0000 by {
                        if g < last {
                            assert(groups@[g] == before[g]);
                        }
                    }
                }
            } else {
                let mut ids: Vec<u32> = Vec::new();
                ids.push(id);
                groups.push((key, ids));
                proof {
                    assert(groups@.drop_last() =~= before);
                    if q > 0 {
                        assert(keyed_lt(sorted@[q - 1], sorted@[q as int]));
                    }
                    let last = groups@.len() - 1;
                    assert forall|x: int| 0 <= x < q + 1 implies exists|g: int| 0 <= g < groups@.len() && groups@[g].0 == (#[trigger] sorted@[x]).0
                        && groups@[g].1@.contains(sorted@[x].1) by {
                        if x == q {
                            assert(groups@[last].1@[0] == id);
                        } else {
                            let g = choose|g: int| 0 <= g < before.len() && before[g].0 == sorted@[x].0 && before[g].1@.contains(sorted@[x].1);
                            assert(groups@[g] == before[g]);
                        }
                    }
                    assert forall|a: int, b: int| 0 <= a < b < groups@.len() implies #[trigger] groups@[a].0 < #[trigger] groups@[b].0 by {
                        assert(groups@[a] == before[a]);
                        if b < last {
                            assert(groups@[b] == before[b]);
                        } else if a < last {
                            assert(before[a].0 <= before[last - 1].0);
                        }
                    }
                    assert forall|g: int| 0 <= g < groups@.len() implies (#[trigger] groups@[g]).1@.len() > 0 && ascending_from(groups@[g].1@, 0)
                        && groups@[g].0 < 0x4_0000_0000 by {
                        if g < last {
                            assert(groups@[g] == before[g]);
                        }
                    }
                }
            }
            q = q + 1;
        }
    groups
}

impl NameNgramIndex {
    pub fn build(table: &EntryTable) -> (r: Result<Self, CompactIndexBuildError>)
        ensures
            match r {
                Ok(index) => index.indexes(table),
                Err(e) => e matches CompactIndexBuildError::TooManyNameNgramBytes { count } && count > u32::MAX,
            },
            15 * names_len(table@) <= u32::MAX ==> r is Ok,
    {
        proof {
            use_type_invariant(table);
        }
        // Every (window key, identifier) pair of every name.
        let mut triples: Vec<(u64, u32)> = Vec::new();
        let mut i: usize = 0;
        while i < table.entries.len()
            invariant
                i <= table.entries@.len() <= u32::MAX,
                forall|k: int| 0 <= k < table.entries@.len() ==> entry_fits(table.arena@, #[trigger] table.entries@[k])
                    && table.entries@[k].id.0 == k,
                forall|t: (u64, u32)| #[trigger] triples@.contains(t) ==> t.0 < 0x4_0000_0000,
                triples@.len() <= 3 * names_len(table@.take(i as int)),
                forall|k: nat, w: int, p: int|
                    k < i && 1 <= w <= 3 && 0 <= p && p + w <= table@[k as int].name.len() ==> triples@.contains(
                        (ngram_key(w, fingerprint(#[trigger] name_window(table@[k as int].name, w, p))) as u64, k as u32),
                    ),
            decreases table.entries@.len() - i,
        {
            let e = &table.entries[i];
            let name = match table.text(e.name) {
                Some(n) => n,
                None => Vec::new(),
            };
            proof {
                assert(name@ == table@[i as int].name);
            }
            let lowered = lower_chars(name.as_slice());
            push_name_keys(&mut triples, lowered.as_slice(), i as u32);
            proof {
                assert(table@.take(i + 1).drop_last() =~= table@.take(i as int));
                assert(table@.take(i + 1).last() == table@[i as int]);
                assert forall|k: nat, w: int, p: int|
                    k < i + 1 && 1 <= w <= 3 && 0 <= p && p + w <= table@[k as int].name.len() implies triples@.contains(
                        (ngram_key(w, fingerprint(#[trigger] name_window(table@[k as int].name, w, p))) as u64, k as u32),
                    ) by {
                    if k == i {
                        assert(name_window(table@[k as int].name, w, p) == lowered@.subrange(p, p + w));
                    }
                }
            }
            i = i + 1;
        }
        let sorted = sort_keyed(triples.as_slice());
        let groups = group_sorted(&sorted);
        // Encode each group.
        let mut postings: Vec<NameNgramPosting> = Vec::new();
        let mut encoded_ids: Vec<u8> = Vec::new();
        let mut g: usize = 0;
        proof {
            assert(table@.take(table@.len() as int) =~= table@);
        }
        while g < groups.len()
            invariant
                g <= groups@.len(),
                postings@.len() == g,
                encoded_ids@.len() <= 5 * group_total(groups@.take(g as int)),
                group_total(groups@) <= sorted@.len(),
                sorted@.len() <= triples@.len() <= 3 * names_len(table@),
                forall|a: int, b: int| 0 <= a < b < groups@.len() ==> #[trigger] groups@[a].0 < #[trigger] groups@[b].0,
                forall|x: int| 0 <= x < groups@.len() ==> (#[trigger] groups@[x]).1@.len() > 0 && ascending_from(groups@[x].1@, 0)
                    && groups@[x].0 < 0x4_0000_0000,
                forall|k: int| 0 <= k < g ==> {
                    let pk = #[trigger] postings@[k];
                    &&& posting_key(pk) == groups@[k].0
                    &&& pk.start + pk.len <= encoded_ids@.len()
                    &&& group_bytes(encoded_ids@, pk) == delta_bytes(groups@[k].1@, 0)
                },
            decreases groups@.len() - g,
        {
            let key = groups[g].0;
            let start = encoded_ids.len();
            let ghost before = encoded_ids@;
            encode_group(&groups[g].1, &mut encoded_ids);
            let len = encoded_ids.len() - start;
            proof {
                lemma_delta_bytes_len(groups@[g as int].1@, 0);
                assert(groups@.take(g + 1).drop_last() =~= groups@.take(g as int));
                lemma_group_total_prefix(groups@, g + 1);
            }
            if start > u32::MAX as usize || len > u32::MAX as usize {
                return Err(CompactIndexBuildError::TooManyNameNgramBytes { count: encoded_ids.len() });
            }
            proof {
                lemma_ngram_key_parts(key / 0x1_0000_0000, (key % 0x1_0000_0000) as u32);
            }
            let posting = NameNgramPosting {
                width: (key / 0x1_0000_0000) as u8,
                fingerprint: (key % 0x1_0000_0000) as u32,
                start: start as u32,
                len: len as u32,
            };
            postings.push(posting);
            proof {
                assert forall|k: int| 0 <= k < g + 1 implies {
                    let pk = #[trigger] postings@[k];
                    &&& posting_key(pk) == groups@[k].0
                    &&& pk.start + pk.len <= encoded_ids@.len()
                    &&& group_bytes(encoded_ids@, pk) == delta_bytes(groups@[k].1@, 0)
                } by {
                    let pk = postings@[k];
                    if k < g {
                        assert(encoded_ids@.subrange(pk.start as int, pk.start + pk.len) =~= before.subrange(pk.start as int, pk.start + pk.len));
                    } else {
                        assert(encoded_ids@.subrange(start as int, start + len) =~= delta_bytes(groups@[k].1@, 0));
                    }
                }
            }
            g = g + 1;
        }
        proof {
            assert forall|k: int| 0 <= k < postings@.len() implies group_ok(encoded_ids@, #[trigger] postings@[k]) by {
                lemma_delta_round_trip(groups@[k].1@, 0);
            }
            assert forall|a: int, b: int| 0 <= a < b < postings@.len() implies posting_key(#[trigger] postings@[a]) < posting_key(
                #[trigger] postings@[b]) by {
                assert(groups@[a].0 < groups@[b].0);
            }
        }
        let index = NameNgramIndex { postings, encoded_ids };
        proof {
            assert forall|i: nat, w: int, p: int|
                i < table@.len() && 1 <= w <= 3 && 0 <= p && p + w <= table@[i as int].name.len() implies
                #[trigger] index.window_posted(table@[i as int].name, i, w, p) by {
                let fp = fingerprint(name_window(table@[i as int].name, w, p));
                let t = (ngram_key(w, fp) as u64, i as u32);
                assert(triples@.contains(t));
                assert(sorted@.contains(t));
                let x = choose|x: int| 0 <= x < sorted@.len() && sorted@[x] == t;
                assert(sorted@[x] == t);
                let k = choose|k: int| 0 <= k < groups@.len() && groups@[k].0 == sorted@[x].0 && groups@[k].1@.contains(sorted@[x].1);
                lemma_delta_round_trip(groups@[k].1@, 0);
                assert(group_of(index.encoded_ids@, index.postings@[k]) == groups@[k].1@);
                assert(posting_key(index.postings@[k]) == ngram_key(w, fp));
                assert(index.postings@[k].width == w);
                assert(index.postings@[k].fingerprint == fp);
                assert(group_of(index.encoded_ids@, index.postings@[k]).contains(i as u32));
            }
        }
        Ok(index)
    }
}

fn ngram_posting_key(p: NameNgramPosting) -> (r: u64)
    ensures
        r == posting_key(p),
{
    (p.width as u64) * 0x1_0000_0000 + (p.fingerprint as u64)
}

/// Whether `needle` occurs in `text` ignoring ASCII case.
fn contains_ascii_case_insensitive(text: &[char], needle: &[char]) -> (r: bool)
    ensures
        r == contains_seq(lower(text@), lower(needle@)),
{
    let a = lower_chars(text);
    let b = lower_chars(needle);
    contains_chars(a.as_slice(), b.as_slice())
}

proof fn lemma_contains_prefix(hay: Seq<char>, needle: Seq<char>, k: int)
    requires
        contains_seq(hay, needle),
        0 <= k <= needle.len(),
    ensures
        contains_seq(hay, needle.take(k)),
{
    let p = choose|p: int| occurs_at(hay, needle, p);
    assert(hay.subrange(p, p + k) =~= needle.take(k)) by {
        assert(hay.subrange(p, p + needle.len()) == needle);
    }
    assert(occurs_at(hay, needle.take(k), p));
}

impl EntryTable {
    /// The lower-cased-insensitive test `name contains needle` for entry `id`.
    fn name_contains(&self, id: EntryId, needle: &[char]) -> (r: bool)
        ensures
            r == (id.value() < self@.len() && contains_seq(lower(self@[id.value() as int].name), lower(needle@))),
    {
        match self.get(id) {
            Some(e) => match self.text(e.name) {
                Some(name) => contains_ascii_case_insensitive(name.as_slice(), needle),
                None => false,
            },
            None => false,
        }
    }
}

impl NameNgramIndex {
    /// First posting whose key is not below `target`.
    fn lower_bound(&self, target: u64) -> (r: usize)
        ensures
            r <= self.postings@.len(),
            forall|k: int| 0 <= k < r ==> posting_key(#[trigger] self.postings@[k]) < target,
            forall|k: int| r <= k < self.postings@.len() ==> posting_key(#[trigger] self.postings@[k]) >= target,
    {
        proof {
            use_type_invariant(self);
        }
        let mut lo: usize = 0;
        let mut hi: usize = self.postings.len();
        while lo < hi
            invariant
                lo <= hi <= self.postings@.len(),
                forall|a: int, b: int|
                    0 <= a < b < self.postings@.len() ==> posting_key(#[trigger] self.postings@[a]) < posting_key(
                        #[trigger] self.postings@[b],
                    ),
                forall|k: int| 0 <= k < lo ==> posting_key(#[trigger] self.postings@[k]) < target,
                forall|k: int| hi <= k < self.postings@.len() ==> posting_key(#[trigger] self.postings@[k]) >= target,
            decreases hi - lo,
        {
            let mid = lo + (hi - lo) / 2;
            if ngram_posting_key(self.postings[mid]) < target {
                proof {
                    assert forall|k: int| 0 <= k < mid + 1 implies posting_key(#[trigger] self.postings@[k]) < target by {
                        if k < mid {
                            assert(posting_key(self.postings@[k]) < posting_key(self.postings@[mid as int]));
                        }
                    }
                }
                lo = mid + 1;
            } else {
                proof {
                    assert forall|k: int| mid <= k < self.postings@.len() implies posting_key(#[trigger] self.postings@[k]) >= target by {
                        if k > mid {
                            assert(posting_key(self.postings@[mid as int]) < posting_key(self.postings@[k]));
                        }
                    }
                }
                hi = mid;
            }
        }
        lo
    }

    /// Identifiers, ascending, of entries whose name contains the first three
    /// characters of `term`, ignoring ASCII case; none for an empty term.
    pub fn lookup(&self, table: &EntryTable, term: &str) -> (r: Vec<EntryId>)
        ensures
            strictly_ascending(r@),
            forall|id: EntryId| #[trigger] r@.contains(id) ==> id.value() < table@.len() && term@.len() > 0
                && contains_seq(lower(table@[id.value() as int].name), query_ngram(term@)),
            self.indexes(table) ==> lists_exactly(
                r@,
                table@.len(),
                |i: nat| term@.len() > 0 && contains_seq(lower(table@[i as int].name), query_ngram(term@)),
            ),
    {
        proof {
            use_type_invariant(self);
        }
        let chars = chars_of(term);
        let lowered = lower_chars(chars.as_slice());
        let width: usize = if lowered.len() < 3 {
            lowered.len()
        } else {
            3
        };
        if width == 0 {
            return Vec::new();
        }
        let ngram = slice_chars(lowered.as_slice(), 0, width);
        proof {
            assert(ngram@ =~= query_ngram(term@));
            lemma_lower_idempotent(term@);
            assert(lower(ngram@) =~= ngram@);
        }
        let fp = text_fingerprint(ngram.as_slice());
        let target: u64 = (width as u64) * 0x1_0000_0000 + (fp as u64);
        let k = self.lower_bound(target);
        let found = k < self.postings.len() && ngram_posting_key(self.postings[k]) == target;
        let ids = if found {
            let posting = self.postings[k];
            let elen = self.encoded_ids.len();
            proof {
                assert(group_ok(self.encoded_ids@, posting));
            }
            decode_ids(&self.encoded_ids, posting.start as usize, posting.start as usize + posting.len as usize)
        } else {
            Vec::new()
        };
        proof {
            if found {
                let ids_spec = group_of(self.encoded_ids@, self.postings@[k as int]);
                assert(ascending_from(ids_spec, 0));
                assert forall|i: int, j: int| 0 <= i < j < ids@.len() implies #[trigger] ids@[i].value() < #[trigger] ids@[j].value() by {
                    assert(ids_spec[i] < ids_spec[j]);
                }
            }
        }
        let mut flags: Vec<bool> = Vec::new();
        let mut q: usize = 0;
        while q < ids.len()
            invariant
                q <= ids@.len(),
                flags@.len() == q,
                ngram@ == query_ngram(term@),
                lower(ngram@) == ngram@,
                forall|x: int| 0 <= x < q ==> #[trigger] flags@[x] == (ids@[x].value() < table@.len()
                    && contains_seq(lower(table@[ids@[x].value() as int].name), query_ngram(term@))),
            decreases ids@.len() - q,
        {
            flags.push(table.name_contains(ids[q], ngram.as_slice()));
            q = q + 1;
        }
        let r = select_ids(&ids, &flags);
        proof {
            assert forall|id: EntryId| #[trigger] r@.contains(id) implies id.value() < table@.len() && term@.len() > 0
                && contains_seq(lower(table@[id.value() as int].name), query_ngram(term@)) by {
                let x = choose|x: int| 0 <= x < ids@.len() && ids@[x] == id && flags@[x];
            }
            if self.indexes(table) {
                assert forall|id: EntryId| #[trigger] r@.contains(id) <==> (id.value() < table@.len() && term@.len() > 0
                    && contains_seq(lower(table@[id.value() as int].name), query_ngram(term@))) by {
                    if id.value() < table@.len() && term@.len() > 0 && contains_seq(lower(table@[id.value() as int].name), query_ngram(term@)) {
                        let i = id.value();
                        let name = table@[i as int].name;
                        let p = choose|p: int| occurs_at(lower(name), query_ngram(term@), p);
                        assert(name_window(name, width as int, p) == ngram@);
                        assert(self.window_posted(name, i, width as int, p));
                        let kk = choose|kk: int|
                            0 <= kk < self.postings@.len() && self.postings@[kk].width == width
                                && self.postings@[kk].fingerprint == fingerprint(name_window(name, width as int, p))
                                && #[trigger] group_of(self.encoded_ids@, self.postings@[kk]).contains(i as u32);
                        assert(posting_key(self.postings@[kk]) == target);
                        if kk < k {
                            assert(posting_key(self.postings@[kk]) < target);
                        }
                        if kk > k {
                            assert(posting_key(self.postings@[k as int]) < posting_key(self.postings@[kk]));
                        }
                        assert(kk == k);
                        assert(found);
                        let ids_spec = group_of(self.encoded_ids@, self.postings@[k as int]);
                        let w = choose|w: int| 0 <= w < ids_spec.len() && ids_spec[w] == i as u32;
                        assert(ids@[w].value() == i);
                        lemma_entry_id_value_injective(ids@[w], id);
                        assert(flags@[w]);
                    }
                }
            }
        }
        r
    }

    /// Identifiers, ascending, of entries whose name contains all of `term`,
    /// ignoring ASCII case; none for an empty term.
    pub fn lookup_full(&self, table: &EntryTable, term: &str) -> (r: Vec<EntryId>)
        ensures
            strictly_ascending(r@),
            forall|id: EntryId| #[trigger] r@.contains(id) ==> id.value() < table@.len() && term@.len() > 0
                && contains_seq(lower(table@[id.value() as int].name), lower(term@)),
            self.indexes(table) ==> lists_exactly(
                r@,
                table@.len(),
                |i: nat| term@.len() > 0 && contains_seq(lower(table@[i as int].name), lower(term@)),
            ),
    {
        let normalized = ascii_lowercase(term);
        let ids = self.lookup(table, normalized.as_str());
        let needle = chars_of(normalized.as_str());
        proof {
            lemma_lower_idempotent(term@);
        }
        let mut flags: Vec<bool> = Vec::new();
        let mut q: usize = 0;
        while q < ids.len()
            invariant
                q <= ids@.len(),
                flags@.len() == q,
                needle@ == lower(term@),
                lower(needle@) == needle@,
                forall|x: int| 0 <= x < q ==> #[trigger] flags@[x] == (ids@[x].value() < table@.len()
                    && contains_seq(lower(table@[ids@[x].value() as int].name), lower(term@))),
            decreases ids@.len() - q,
        {
            flags.push(table.name_contains(ids[q], needle.as_slice()));
            q = q + 1;
        }
        let r = select_ids(&ids, &flags);
        proof {
            assert forall|id: EntryId| #[trigger] r@.contains(id) implies id.value() < table@.len() && term@.len() > 0
                && contains_seq(lower(table@[id.value() as int].name), lower(term@)) by {
                let x = choose|x: int| 0 <= x < ids@.len() && ids@[x] == id && flags@[x];
                assert(ids@.contains(id));
                assert(normalized@.len() == term@.len());
            }
            if self.indexes(table) {
                assert forall|id: EntryId| #[trigger] r@.contains(id) <==> (id.value() < table@.len() && term@.len() > 0
                    && contains_seq(lower(table@[id.value() as int].name), lower(term@))) by {
                    if id.value() < table@.len() && term@.len() > 0 && contains_seq(lower(table@[id.value() as int].name), lower(term@)) {
                        let name = table@[id.value() as int].name;
                        let w = if term@.len() < 3 { term@.len() as int } else { 3 };
                        lemma_contains_prefix(lower(name), lower(term@), w);
                        assert(query_ngram(normalized@) =~= lower(term@).take(w));
                        assert(ids@.contains(id));
                        let x = choose|x: int| 0 <= x < ids@.len() && ids@[x] == id;
                        assert(flags@[x]);
                    }
                }
            }
        }
        r
    }

    /// Heap bytes of the postings and encoded identifiers: at least their
    /// lengths times their sizes.
    fn heap_bytes(&self) -> (r: usize)
        ensures
            r >= saturate(saturate((self.postings@.len() * size_of::<NameNgramPosting>()) as int) + self.encoded_ids@.len()),
    {
        let capacity = vec_capacity(&self.postings);
        let size = core::mem::size_of::<NameNgramPosting>();
        proof {
            assert(capacity * size >= self.postings@.len() * size) by (nonlinear_arith)
                requires capacity >= self.postings@.len();
        }
        let postings = saturating_mul(capacity, size);
        postings.saturating_add(vec_capacity(&self.encoded_ids))
    }
}

impl Clone for NameNgramIndex {
    fn clone(&self) -> (r: Self)
        ensures
            forall|t: &EntryTable| self.indexes(t) ==> r.indexes(t),
    {
        proof {
            use_type_invariant(self);
        }
        let r = NameNgramIndex { postings: copy_vec(&self.postings), encoded_ids: copy_vec(&self.encoded_ids) };
        proof {
            assert forall|t: &EntryTable| self.indexes(t) implies r.indexes(t) by {
                assert forall|i: nat, w: int, p: int|
                    i < t@.len() && 1 <= w <= 3 && 0 <= p && p + w <= t@[i as int].name.len() implies
                    #[trigger] r.window_posted(t@[i as int].name, i, w, p) by {
                    assert(self.window_posted(t@[i as int].name, i, w, p));
                    let k = choose|k: int|
                        0 <= k < self.postings@.len() && self.postings@[k].width == w
                            && self.postings@[k].fingerprint == fingerprint(name_window(t@[i as int].name, w, p))
                            && #[trigger] group_of(self.encoded_ids@, self.postings@[k]).contains(i as u32);
                    assert(group_of(r.encoded_ids@, r.postings@[k]).contains(i as u32));
                }
            }
        }
        r
    }
}

impl Default for NameNgramIndex {
    fn default() -> (r: Self)
        ensures
            forall|t: &EntryTable| t@.len() == 0 ==> r.indexes(t),
    {
        NameNgramIndex { postings: Vec::new(), encoded_ids: Vec::new() }
    }
}

// ---------------------------------------------------------------------------
// Lexicographic order on character sequences
// ---------------------------------------------------------------------------

/// A text that starts with `p` does not sort before `p`.
pub proof fn lemma_prefix_not_below(a: Seq<char>, p: Seq<char>)
    requires
        has_prefix(a, p),
    ensures
        !seq_lt(a, p),
    decreases p.len(),
{
    if p.len() > 0 {
        assert(a[0] == p[0]);
        assert(has_prefix(a.drop_first(), p.drop_first())) by {
            assert(a.drop_first().subrange(0, p.drop_first().len() as int) =~= p.drop_first());
        }
        lemma_prefix_not_below(a.drop_first(), p.drop_first());
    }
}

/// Texts with a prefix form one block of the order: between `p` and a text
/// that starts with `p`, every text starts with `p`.
pub proof fn lemma_prefix_block(x: Seq<char>, y: Seq<char>, p: Seq<char>)
    requires
        !seq_lt(x, p),
        seq_lt(x, y),
        has_prefix(y, p),
    ensures
        has_prefix(x, p),
    decreases p.len(),
{
    if p.len() == 0 {
        assert(x.subrange(0, 0) =~= p);
    } else {
        assert(y[0] == p[0]);
        if x.len() == 0 {
            assert(seq_lt(x, p));
        } else {
            if x[0] != p[0] {
                assert(p[0] < x[0]);
                assert(!seq_lt(x, y));
            } else {
                assert(has_prefix(y.drop_first(), p.drop_first())) by {
                    assert(y.drop_first().subrange(0, p.drop_first().len() as int) =~= p.drop_first());
                }
                lemma_prefix_block(x.drop_first(), y.drop_first(), p.drop_first());
                assert(x.subrange(0, p.len() as int) =~= seq![x[0]] + x.drop_first().subrange(0, p.drop_first().len() as int));
                assert(p =~= seq![p[0]] + p.drop_first());
            }
        }
    }
}

/// Order of segment occurrences: by key, then by position.
pub open spec fn occ_lt(keys: Seq<Seq<char>>, a: u32, b: u32) -> bool {
    seq_lt(keys[a as int], keys[b as int]) || (keys[a as int] == keys[b as int] && a < b)
}

pub open spec fn occ_sorted(keys: Seq<Seq<char>>, s: Seq<u32>) -> bool {
    forall|i: int, j: int| 0 <= i < j < s.len() ==> occ_lt(keys, #[trigger] s[i], #[trigger] s[j])
}

pub open spec fn keys_view(keys: Seq<Vec<char>>) -> Seq<Seq<char>> {
    Seq::new(keys.len(), |i: int| keys[i]@)
}

pub proof fn lemma_occ_lt_transitive(keys: Seq<Seq<char>>, a: u32, b: u32, c: u32)
    requires
        occ_lt(keys, a, b),
        occ_lt(keys, b, c),
    ensures
        occ_lt(keys, a, c),
{
    if seq_lt(keys[a as int], keys[b as int]) && seq_lt(keys[b as int], keys[c as int]) {
        lemma_seq_lt_transitive(keys[a as int], keys[b as int], keys[c as int]);
    }
}

proof fn lemma_occ_lt_total(keys: Seq<Seq<char>>, a: u32, b: u32)
    ensures
        a == b || occ_lt(keys, a, b) || occ_lt(keys, b, a),
{
    lemma_seq_lt_total(keys[a as int], keys[b as int]);
}

fn occ_less(keys: &Vec<Vec<char>>, a: u32, b: u32) -> (r: bool)
    requires
        a < keys@.len(),
        b < keys@.len(),
    ensures
        r == occ_lt(keys_view(keys@), a, b),
{
    let ka = &keys[a as usize];
    let kb = &keys[b as usize];
    if lex_less(ka.as_slice(), kb.as_slice()) {
        return true;
    }
    crate::text::chars_eq(ka.as_slice(), kb.as_slice()) && a < b
}

proof fn lemma_u32_push_contains(s: Seq<u32>, x: u32)
    ensures
        forall|p: u32| #[trigger] s.push(x).contains(p) <==> (s.contains(p) || p == x),
{
    assert forall|p: u32| #[trigger] s.push(x).contains(p) <==> (s.contains(p) || p == x) by {
        if s.push(x).contains(p) {
            let k = choose|k: int| 0 <= k < s.len() + 1 && s.push(x)[k] == p;
            if k < s.len() {
                assert(s[k] == p);
            }
        }
        if s.contains(p) {
            let k = choose|k: int| 0 <= k < s.len() && s[k] == p;
            assert(s.push(x)[k] == p);
        }
        if p == x {
            assert(s.push(x)[s.len() as int] == p);
        }
    }
}

/// Merges two sorted occurrence lists.
fn merge_occ(keys: &Vec<Vec<char>>, a: Vec<u32>, b: Vec<u32>) -> (r: Vec<u32>)
    requires
        occ_sorted(keys_view(keys@), a@),
        occ_sorted(keys_view(keys@), b@),
        forall|k: int| 0 <= k < a@.len() ==> #[trigger] a@[k] < keys@.len(),
        forall|k: int| 0 <= k < b@.len() ==> #[trigger] b@[k] < keys@.len(),
    ensures
        occ_sorted(keys_view(keys@), r@),
        forall|p: u32| #[trigger] r@.contains(p) <==> (a@.contains(p) || b@.contains(p)),
        r@.len() <= a@.len() + b@.len(),
{
    let ghost kv = keys_view(keys@);
    let mut out: Vec<u32> = Vec::new();
    let mut i: usize = 0;
    let mut j: usize = 0;
    while i < a.len() || j < b.len()
        invariant
            i <= a@.len(),
            j <= b@.len(),
            kv == keys_view(keys@),
            occ_sorted(kv, a@),
            occ_sorted(kv, b@),
            forall|k: int| 0 <= k < a@.len() ==> #[trigger] a@[k] < keys@.len(),
            forall|k: int| 0 <= k < b@.len() ==> #[trigger] b@[k] < keys@.len(),
            occ_sorted(kv, out@),
            out@.len() <= i + j,
            forall|p: u32| #[trigger] out@.contains(p) <==> (a@.take(i as int).contains(p) || b@.take(j as int).contains(p)),
            i < a@.len() ==> forall|k: int| 0 <= k < out@.len() ==> occ_lt(kv, #[trigger] out@[k], a@[i as int]),
            j < b@.len() ==> forall|k: int| 0 <= k < out@.len() ==> occ_lt(kv, #[trigger] out@[k], b@[j as int]),
        decreases a@.len() - i + b@.len() - j,
    {
        let ghost before = out@;
        let ghost i0 = i as int;
        let ghost j0 = j as int;
        let take_a = j >= b.len() || (i < a.len() && occ_less(keys, a[i], b[j]));
        let take_b = !take_a && (i >= a.len() || occ_less(keys, b[j], a[i]));
        let x = if take_a {
            a[i]
        } else {
            b[j]
        };
        proof {
            if !take_a && !take_b {
                lemma_occ_lt_total(kv, a@[i0], b@[j0]);
            }
        }
        out.push(x);
        if take_a {
            i = i + 1;
        } else if take_b {
            j = j + 1;
        } else {
            i = i + 1;
            j = j + 1;
        }
        proof {
            lemma_u32_push_contains(before, x);
            assert forall|p: int, q: int| 0 <= p < q < out@.len() implies occ_lt(kv, #[trigger] out@[p], #[trigger] out@[q]) by {
                assert(out@[p] == before[p] || p == before.len());
                if q < before.len() {
                    assert(out@[p] == before[p] && out@[q] == before[q]);
                } else {
                    assert(out@[p] == before[p]);
                    if take_a {
                        assert(occ_lt(kv, before[p], a@[i0]));
                    } else {
                        assert(occ_lt(kv, before[p], b@[j0]));
                    }
                }
            }
            if i > i0 {
                assert(a@.take(i as int) =~= a@.take(i0).push(a@[i0]));
                lemma_u32_push_contains(a@.take(i0), a@[i0]);
            } else {
                assert(a@.take(i as int) == a@.take(i0));
            }
            if j > j0 {
                assert(b@.take(j as int) =~= b@.take(j0).push(b@[j0]));
                lemma_u32_push_contains(b@.take(j0), b@[j0]);
            } else {
                assert(b@.take(j as int) == b@.take(j0));
            }
            if i < a@.len() {
                assert forall|k: int| 0 <= k < out@.len() implies occ_lt(kv, #[trigger] out@[k], a@[i as int]) by {
                    if i > i0 {
                        assert(occ_lt(kv, a@[i0], a@[i as int]));
                    }
                    if k < before.len() {
                        assert(out@[k] == before[k]);
                        if i > i0 {
                            lemma_occ_lt_transitive(kv, before[k], a@[i0], a@[i as int]);
                        }
                    } else {
                        if !(i > i0) {
                            if take_b {
                                assert(occ_lt(kv, b@[j0], a@[i0]));
                            }
                        }
                    }
                }
            }
            if j < b@.len() {
                assert forall|k: int| 0 <= k < out@.len() implies occ_lt(kv, #[trigger] out@[k], b@[j as int]) by {
                    if j > j0 {
                        assert(occ_lt(kv, b@[j0], b@[j as int]));
                    }
                    if k < before.len() {
                        assert(out@[k] == before[k]);
                        if j > j0 {
                            lemma_occ_lt_transitive(kv, before[k], b@[j0], b@[j as int]);
                        }
                    } else {
                        if !(j > j0) {
                            assert(occ_lt(kv, a@[i0], b@[j0]));
                        } else if take_b == false && take_a == false {
                            assert(a@[i0] == b@[j0]);
                        }
                    }
                }
            }
        }
    }
    proof {
        assert(a@.take(a@.len() as int) =~= a@);
        assert(b@.take(b@.len() as int) =~= b@);
    }
    out
}

/// The occurrences `v`, sorted by key and position.
pub(crate) fn sort_occ(keys: &Vec<Vec<char>>, v: &[u32]) -> (r: Vec<u32>)
    requires
        forall|k: int| 0 <= k < v@.len() ==> #[trigger] v@[k] < keys@.len(),
    ensures
        occ_sorted(keys_view(keys@), r@),
        forall|p: u32| #[trigger] r@.contains(p) <==> v@.contains(p),
        forall|k: int| 0 <= k < r@.len() ==> #[trigger] r@[k] < keys@.len(),
        r@.len() <= v@.len(),
    decreases v@.len(),
{
    let n = v.len();
    if n == 0 {
        return Vec::new();
    }
    if n == 1 {
        let mut out: Vec<u32> = Vec::new();
        out.push(v[0]);
        proof {
            lemma_u32_push_contains(Seq::<u32>::empty(), v@[0]);
            assert(out@ =~= Seq::<u32>::empty().push(v@[0]));
            assert(v@ =~= Seq::<u32>::empty().push(v@[0]));
        }
        return out;
    }
    let mid = n / 2;
    let (left, right) = v.split_at(mid);
    proof {
        assert(v@ =~= left@ + right@);
        assert forall|k: int| 0 <= k < left@.len() implies #[trigger] left@[k] < keys@.len() by {
            assert(left@[k] == v@[k]);
        }
        assert forall|k: int| 0 <= k < right@.len() implies #[trigger] right@[k] < keys@.len() by {
            assert(right@[k] == v@[k + mid]);
        }
    }
    let a = sort_occ(keys, left);
    let b = sort_occ(keys, right);
    let r = merge_occ(keys, a, b);
    proof {
        assert forall|p: u32| #[trigger] r@.contains(p) <==> v@.contains(p) by {
            if v@.contains(p) {
                let k = choose|k: int| 0 <= k < v@.len() && v@[k] == p;
                if k < mid {
                    assert(left@[k] == p);
                } else {
                    assert(right@[k - mid] == p);
                }
            }
            if left@.contains(p) {
                let k = choose|k: int| 0 <= k < left@.len() && left@[k] == p;
                assert(v@[k] == p);
            }
            if right@.contains(p) {
                let k = choose|k: int| 0 <= k < right@.len() && right@[k] == p;
                assert(v@[k + mid] == p);
            }
        }
        assert forall|k: int| 0 <= k < r@.len() implies #[trigger] r@[k] < keys@.len() by {
            assert(r@.contains(r@[k]));
            assert(v@.contains(r@[k]));
            let w = choose|w: int| 0 <= w < v@.len() && v@[w] == r@[k];
        }
    }
    r
}

// ---------------------------------------------------------------------------
// Path segments
// ---------------------------------------------------------------------------

pub open spec fn is_path_separator(c: char) -> bool {
    c == '/' || c == '\\'
}

/// Splitting state: the segments so far and the text since the last separator.
pub struct SegmentScan {
    pub segments: Seq<Seq<char>>,
    pub current: Seq<char>,
}

/// Ends a segment: trailing colons go, and an empty segment is dropped.
pub open spec fn close_segment(segments: Seq<Seq<char>>, current: Seq<char>) -> Seq<Seq<char>> {
    let t = trim_end_char(current, ':');
    if t.len() > 0 {
        segments.push(t)
    } else {
        segments
    }
}

pub open spec fn segment_scan(s: Seq<char>) -> SegmentScan
    decreases s.len(),
{
    if s.len() == 0 {
        SegmentScan { segments: Seq::empty(), current: Seq::empty() }
    } else {
        let st = segment_scan(s.drop_last());
        if is_path_separator(s.last()) {
            SegmentScan { segments: close_segment(st.segments, st.current), current: Seq::empty() }
        } else {
            SegmentScan { segments: st.segments, current: st.current.push(s.last()) }
        }
    }
}

/// The non-empty segments of a path split at `/` and `\`, each without
/// trailing colons (so `D:` is `D`).
pub open spec fn path_segments(path: Seq<char>) -> Seq<Seq<char>> {
    let st = segment_scan(path);
    close_segment(st.segments, st.current)
}

/// The segments an entry is found under: all of a directory's, all but the last
/// of anything else's.
pub open spec fn indexed_segments(m: EntryModel) -> Seq<Seq<char>> {
    let s = path_segments(m.path);
    if m.kind == IndexedEntryKind::Directory || s.len() == 0 {
        s
    } else {
        s.drop_last()
    }
}

/// Some indexed segment of the entry equals `q` up to ASCII case.
pub open spec fn has_segment_equal(m: EntryModel, q: Seq<char>) -> bool {
    exists|k: int| 0 <= k < indexed_segments(m).len() && lower(#[trigger] indexed_segments(m)[k]) == lower(q)
}

/// Some indexed segment of the entry starts with `q` up to ASCII case.
pub open spec fn has_segment_prefixed(m: EntryModel, q: Seq<char>) -> bool {
    exists|k: int| 0 <= k < indexed_segments(m).len() && has_prefix(lower(#[trigger] indexed_segments(m)[k]), lower(q))
}

/// The entries a segment lookup settles on before any fuzzy fallback: those with
/// a segment equal to the query when any entry has one, else those with a
/// segment that starts with it.
pub open spec fn precise_segment_match(models: Seq<EntryModel>, i: int, q: Seq<char>) -> bool {
    if exists|j: int| 0 <= j < models.len() && has_segment_equal(#[trigger] models[j], q) {
        has_segment_equal(models[i], q)
    } else {
        has_segment_prefixed(models[i], q)
    }
}


/// Total number of characters of the entries' paths.
pub open spec fn paths_len(models: Seq<EntryModel>) -> nat
    decreases models.len(),
{
    if models.len() == 0 {
        0
    } else {
        paths_len(models.drop_last()) + models.last().path.len()
    }
}

proof fn lemma_trim_end_char_len(s: Seq<char>, c: char)
    ensures
        trim_end_char(s, c).len() <= s.len(),
    decreases s.len(),
{
    if s.len() > 0 && s.last() == c {
        lemma_trim_end_char_len(s.drop_last(), c);
    }
}

proof fn lemma_segment_scan_len(s: Seq<char>)
    ensures
        segment_scan(s).segments.len() + segment_scan(s).current.len() <= s.len(),
    decreases s.len(),
{
    if s.len() > 0 {
        lemma_segment_scan_len(s.drop_last());
        let st = segment_scan(s.drop_last());
        lemma_trim_end_char_len(st.current, ':');
    }
}

/// A path has no more segments than characters.
proof fn lemma_path_segments_len(p: Seq<char>)
    ensures
        path_segments(p).len() <= p.len(),
{
    lemma_segment_scan_len(p);
    lemma_trim_end_char_len(segment_scan(p).current, ':');
}

/// `(offset, len)` of each segment of a path.
fn path_segment_offsets(path: &[char]) -> (r: Vec<(usize, usize)>)
    ensures
        r@.len() == path_segments(path@).len(),
        forall|k: int|
            0 <= k < r@.len() ==> (#[trigger] r@[k]).0 + r@[k].1 <= path@.len() && path@.subrange(
                r@[k].0 as int,
                r@[k].0 + r@[k].1,
            ) == path_segments(path@)[k],
{
    let n = path.len();
    let mut out: Vec<(usize, usize)> = Vec::new();
    let mut seg_start: usize = 0;
    let mut i: usize = 0;
    while i < n
        invariant
            n == path@.len(),
            seg_start <= i <= n,
            out@.len() == segment_scan(path@.take(i as int)).segments.len(),
            forall|k: int|
                0 <= k < out@.len() ==> (#[trigger] out@[k]).0 + out@[k].1 <= path@.len() && path@.subrange(
                    out@[k].0 as int,
                    out@[k].0 + out@[k].1,
                ) == segment_scan(path@.take(i as int)).segments[k],
            segment_scan(path@.take(i as int)).current == path@.subrange(seg_start as int, i as int),
        decreases n - i,
    {
        let ghost prev = segment_scan(path@.take(i as int));
        proof {
            assert(path@.take(i + 1).drop_last() =~= path@.take(i as int));
        }
        if path[i] == '/' || path[i] == '\\' {
            let mut end = i;
            while end > seg_start && path[end - 1] == ':'
                invariant
                    seg_start <= end <= i < n,
                    n == path@.len(),
                    trim_end_char(path@.subrange(seg_start as int, i as int), ':') == trim_end_char(
                        path@.subrange(seg_start as int, end as int),
                        ':',
                    ),
                decreases end,
            {
                proof {
                    assert(path@.subrange(seg_start as int, end - 1) =~= path@.subrange(seg_start as int, end as int).drop_last());
                }
                end = end - 1;
            }
            proof {
                let t = path@.subrange(seg_start as int, end as int);
                if end > seg_start {
                    assert(t.last() == path@[end - 1]);
                }
                assert(trim_end_char(t, ':') == t);
            }
            if end > seg_start {
                out.push((seg_start, end - seg_start));
            }
            seg_start = i + 1;
            proof {
                assert(path@.subrange(seg_start as int, (i + 1) as int) =~= Seq::<char>::empty());
            }
        } else {
            proof {
                assert(path@.subrange(seg_start as int, (i + 1) as int) =~= path@.subrange(seg_start as int, i as int).push(path@[i as int]));
            }
        }
        i = i + 1;
    }
    proof {
        assert(path@.take(n as int) =~= path@);
    }
    let mut end = n;
    while end > seg_start && path[end - 1] == ':'
        invariant
            seg_start <= end <= n,
            n == path@.len(),
            trim_end_char(path@.subrange(seg_start as int, n as int), ':') == trim_end_char(
                path@.subrange(seg_start as int, end as int),
                ':',
            ),
        decreases end,
    {
        proof {
            assert(path@.subrange(seg_start as int, end - 1) =~= path@.subrange(seg_start as int, end as int).drop_last());
        }
        end = end - 1;
    }
    proof {
        let t = path@.subrange(seg_start as int, end as int);
        if end > seg_start {
            assert(t.last() == path@[end - 1]);
        }
        assert(trim_end_char(t, ':') == t);
    }
    if end > seg_start {
        out.push((seg_start, end - seg_start));
    }
    out
}

#[derive(Debug, Clone, Copy, PartialEq, Eq, Structural)]
struct SegmentBucket {
    text: PackedTextRange,
    start: u32,
    len: u32,
}

/// The first character of a segment, which selects its fuzzy bucket.
pub open spec fn fuzzy_key(text: Seq<char>) -> Seq<char> {
    text.take(1)
}

/// Bit `c - 'a'` for each ASCII letter `c` of a text (case ignored).
pub open spec fn alpha_mask(s: Seq<char>) -> u32
    decreases s.len(),
{
    if s.len() == 0 {
        0
    } else {
        let c = lower_char(s.last());
        if 'a' <= c && c <= 'z' {
            alpha_mask(s.drop_last()) | (1u32 << ((c as u32) - ('a' as u32)) as u32)
        } else {
            alpha_mask(s.drop_last())
        }
    }
}

/// The letters of `query` all occur in `text`, unless either has none.
pub open spec fn letters_cover(text: Seq<char>, query: Seq<char>) -> bool {
    alpha_mask(query) == 0 || alpha_mask(text) == 0 || alpha_mask(text) & alpha_mask(query) == alpha_mask(
        query,
    )
}

fn ascii_alphabetic_mask(text: &[char]) -> (r: u32)
    ensures
        r == alpha_mask(text@),
{
    let mut mask: u32 = 0;
    let mut i: usize = 0;
    while i < text.len()
        invariant
            i <= text@.len(),
            mask == alpha_mask(text@.take(i as int)),
        decreases text@.len() - i,
    {
        proof {
            assert(text@.take(i + 1).drop_last() =~= text@.take(i as int));
        }
        let c = ascii_lower_char(text[i]);
        if 'a' <= c && c <= 'z' {
            mask = mask | (1u32 << ((c as u32) - ('a' as u32)));
        }
        i = i + 1;
    }
    proof {
        assert(text@.take(text@.len() as int) =~= text@);
    }
    mask
}

/// Entries by the segments of their paths, in buckets sorted by lower-cased
/// segment; a second index finds buckets by their first character.
pub struct PathSegmentIndex {
    buckets: Vec<SegmentBucket>,
    ids: Vec<EntryId>,
    fuzzy_buckets: FingerprintIndex,
}

spec fn slice_of(ids: Seq<EntryId>, b: SegmentBucket) -> Seq<EntryId> {
    ids.subrange(b.start as int, b.start + b.len)
}

impl PathSegmentIndex {
    #[verifier::type_invariant]
    spec fn inv(&self) -> bool {
        &&& self.fuzzy_buckets.wf()
        &&& forall|b: int|
            0 <= b < self.buckets@.len() ==> {
                let bk = #[trigger] self.buckets@[b];
                &&& bk.start + bk.len <= self.ids@.len()
                &&& strictly_ascending(slice_of(self.ids@, bk))
            }
    }

    /// The text of bucket `b` in `table`'s arena.
    spec fn bucket_text(&self, table: &EntryTable, b: int) -> Seq<char> {
        text_or_empty(range_text(table.arena_view(), self.buckets@[b].text))
    }

    /// Segment `seg` of entry `i` lies in a bucket of its lower-cased text.
    spec fn segment_bucketed(&self, table: &EntryTable, i: nat, seg: Seq<char>) -> bool {
        exists|b: int|
            0 <= b < self.buckets@.len() && lower(self.bucket_text(table, b)) == lower(seg)
                && #[trigger] slice_of(self.ids@, self.buckets@[b]).contains(id_with_value(i))
    }

    /// Bucket `b` holds a segment text of the table, only entries with that
    /// segment, and is found by its first character.
    spec fn bucket_ok(&self, table: &EntryTable, b: int) -> bool {
        let t = self.bucket_text(table, b);
        &&& range_text(table.arena_view(), self.buckets@[b].text) is Some
        &&& forall|id: EntryId| #[trigger] slice_of(self.ids@, self.buckets@[b]).contains(id) ==> id.value() < table@.len()
            && has_segment_equal(table@[id.value() as int], t)
        &&& exists|j: int, k: int| 0 <= j < table@.len() && 0 <= k < indexed_segments(table@[j]).len()
            && #[trigger] indexed_segments(table@[j])[k] == t
        &&& t.len() > 0 ==> self.fuzzy_buckets.has(fingerprint(fuzzy_key(t)), id_with_value(b as nat))
    }

    /// The buckets describe exactly the segments of `table`'s entries.
    pub closed spec fn indexes(&self, table: &EntryTable) -> bool {
        &&& self.buckets@.len() <= u32::MAX
        &&& forall|b: int| 0 <= b < self.buckets@.len() ==> #[trigger] self.bucket_ok(table, b)
        &&& forall|a: int, b: int|
            0 <= a < b < self.buckets@.len() ==> seq_lt(lower(#[trigger] self.bucket_text(table, a)), lower(
                #[trigger] self.bucket_text(table, b),
            ))
        &&& forall|i: nat, k: int|
            i < table@.len() && 0 <= k < indexed_segments(table@[i as int]).len() ==> #[trigger] self.segment_bucketed(
                table,
                i,
                indexed_segments(table@[i as int])[k],
            )
    }
}

/// Segment `seg` of entry `i` has an occurrence recorded with its lower-cased text.
spec fn occurrence_recorded(keys: Seq<Seq<char>>, owners: Seq<u32>, i: nat, seg: Seq<char>) -> bool {
    exists|j: int| 0 <= j < keys.len() && owners[j] == i && #[trigger] keys[j] == lower(seg)
}

/// The occurrences recorded so far: all of entries below `i` and the first
/// `kdone` of entry `i`, each with its range in the arena and lower-cased text.
spec fn occurrences_partial(
    table: &EntryTable,
    keys: Seq<Seq<char>>,
    ranges: Seq<PackedTextRange>,
    owners: Seq<u32>,
    i: nat,
    kdone: int,
) -> bool {
    &&& keys.len() == ranges.len() == owners.len()
    &&& keys.len() < u32::MAX
    &&& forall|j: int| 0 <= j < owners.len() ==> #[trigger] owners[j] <= i
    &&& forall|j1: int, j2: int| 0 <= j1 < j2 < owners.len() ==> #[trigger] owners[j1] <= #[trigger] owners[j2]
    &&& forall|j: int|
        0 <= j < keys.len() ==> {
            let t = text_or_empty(range_text(table.arena_view(), #[trigger] ranges[j]));
            &&& range_text(table.arena_view(), ranges[j]) is Some
            &&& keys[j] == lower(t)
            &&& owners[j] < table@.len()
            &&& exists|k: int| 0 <= k < indexed_segments(table@[owners[j] as int]).len()
                && #[trigger] indexed_segments(table@[owners[j] as int])[k] == t
        }
    &&& forall|ii: nat, k: int|
        (ii < i || (ii == i && k < kdone)) && ii < table@.len() && 0 <= k < indexed_segments(table@[ii as int]).len()
            ==> #[trigger] occurrence_recorded(keys, owners, ii, indexed_segments(table@[ii as int])[k])
}

proof fn lemma_occurrences_push(
    table: &EntryTable,
    keys: Seq<Seq<char>>,
    ranges: Seq<PackedTextRange>,
    owners: Seq<u32>,
    i: nat,
    kdone: int,
    key: Seq<char>,
    range: PackedTextRange,
)
    requires
        occurrences_partial(table, keys, ranges, owners, i, kdone),
        keys.len() + 1 < u32::MAX,
        i < table@.len(),
        i < u32::MAX,
        0 <= kdone < indexed_segments(table@[i as int]).len(),
        range_text(table.arena_view(), range) == Some(indexed_segments(table@[i as int])[kdone]),
        key == lower(indexed_segments(table@[i as int])[kdone]),
    ensures
        occurrences_partial(table, keys.push(key), ranges.push(range), owners.push(i as u32), i, kdone + 1),
{
    let nk = keys.push(key);
    let nr = ranges.push(range);
    let no = owners.push(i as u32);
    assert forall|j: int| 0 <= j < no.len() implies #[trigger] no[j] <= i by {
        if j < owners.len() {
            assert(no[j] == owners[j]);
        }
    }
    assert forall|j1: int, j2: int| 0 <= j1 < j2 < no.len() implies #[trigger] no[j1] <= #[trigger] no[j2] by {
        assert(no[j1] == owners[j1]);
        if j2 < owners.len() {
            assert(no[j2] == owners[j2]);
        }
    }
    assert forall|j: int| 0 <= j < nk.len() implies {
        let t = text_or_empty(range_text(table.arena_view(), #[trigger] nr[j]));
        &&& range_text(table.arena_view(), nr[j]) is Some
        &&& nk[j] == lower(t)
        &&& no[j] < table@.len()
        &&& exists|k: int| 0 <= k < indexed_segments(table@[no[j] as int]).len()
            && #[trigger] indexed_segments(table@[no[j] as int])[k] == t
    } by {
        if j < keys.len() {
            assert(nr[j] == ranges[j] && nk[j] == keys[j] && no[j] == owners[j]);
        } else {
            assert(j == keys.len());
            assert(nr[j] == range && nk[j] == key && no[j] == i as u32);
            assert(no[j] as int == i);
            assert(indexed_segments(table@[i as int])[kdone] == text_or_empty(range_text(table.arena_view(), nr[j])));
        }
    }
    assert forall|ii: nat, k: int|
        (ii < i || (ii == i && k < kdone + 1)) && ii < table@.len() && 0 <= k < indexed_segments(table@[ii as int]).len()
            implies #[trigger] occurrence_recorded(nk, no, ii, indexed_segments(table@[ii as int])[k]) by {
        if ii == i && k == kdone {
            assert(nk[keys.len() as int] == lower(indexed_segments(table@[ii as int])[k]));
            assert(no[keys.len() as int] == ii);
        } else {
            assert(occurrence_recorded(keys, owners, ii, indexed_segments(table@[ii as int])[k]));
            let j = choose|j: int| 0 <= j < keys.len() && owners[j] == ii && #[trigger] keys[j] == lower(indexed_segments(table@[ii as int])[k]);
            assert(nk[j] == keys[j] && no[j] == owners[j]);
        }
    }
}

/// The occurrences of path segments, in entry order.
struct SegmentOccurrences {
    keys: Vec<Vec<char>>,
    ranges: Vec<PackedTextRange>,
    owners: Vec<u32>,
}

proof fn lemma_paths_len_prefix(models: Seq<EntryModel>, i: int)
    requires
        0 <= i <= models.len(),
    ensures
        paths_len(models.take(i)) <= paths_len(models),
    decreases models.len() - i,
{
    if i < models.len() {
        lemma_paths_len_prefix(models, i + 1);
        assert(models.take(i + 1).drop_last() =~= models.take(i));
    } else {
        assert(models.take(i) =~= models);
    }
}

impl EntryTable {
    /// Every indexed segment occurrence of the table, in entry order; an error when
    /// there are too many to number in 32 bits.
    fn segment_occurrences(&self) -> (r: Result<SegmentOccurrences, usize>)
        ensures
            match r {
                Ok(occ) => occurrences_partial(self, keys_view(occ.keys@), occ.ranges@, occ.owners@, self@.len(), 0)
                    && occ.keys@.len() <= paths_len(self@),
                Err(count) => count >= u32::MAX - 1 && count <= paths_len(self@),
            },
    {
        proof {
            use_type_invariant(self);
        }
        let mut occ = SegmentOccurrences { keys: Vec::new(), ranges: Vec::new(), owners: Vec::new() };
        proof {
            assert(keys_view(occ.keys@) =~= Seq::<Seq<char>>::empty());
            lemma_paths_len_prefix(self@, 0);
        }
        let mut i: usize = 0;
        while i < self.entries.len()
            invariant
                i <= self.entries@.len() <= u32::MAX,
                self.entries@.len() == self@.len(),
                self.arena@.len() < u32::MAX,
                forall|k: int| 0 <= k < self.entries@.len() ==> entry_fits(self.arena@, #[trigger] self.entries@[k])
                    && self.entries@[k].id.0 == k,
                occurrences_partial(self, keys_view(occ.keys@), occ.ranges@, occ.owners@, i as nat, 0),
                occ.keys@.len() <= paths_len(self@.take(i as int)),
                paths_len(self@.take(i as int)) <= paths_len(self@),
            decreases self.entries@.len() - i,
        {
            let e = &self.entries[i];
            let path = match self.text(e.path) {
                Some(p) => p,
                None => Vec::new(),
            };
            let ghost m = self@[i as int];
            proof {
                assert(m == entry_model(self.arena@, *e));
                assert(path@ == m.path);
            }
            let offsets = path_segment_offsets(path.as_slice());
            let count = if e.kind == IndexedEntryKind::Directory || offsets.len() == 0 {
                offsets.len()
            } else {
                offsets.len() - 1
            };
            proof {
                assert(count == indexed_segments(m).len());
                lemma_path_segments_len(m.path);
                assert(self@.take(i + 1).drop_last() =~= self@.take(i as int));
                lemma_paths_len_prefix(self@, i + 1);
            }
            let ghost base = occ.keys@.len();
            let mut k: usize = 0;
            while k < count
                invariant
                    k <= count <= offsets@.len(),
                    count == indexed_segments(m).len(),
                    offsets@.len() == path_segments(path@).len(),
                    path@ == m.path,
                    m == self@[i as int],
                    i < self@.len(),
                    self@.len() <= u32::MAX,
                    self.arena@.len() < u32::MAX,
                    range_text(self.arena@, e.path) == Some(path@),
                    forall|q: int|
                        0 <= q < offsets@.len() ==> (#[trigger] offsets@[q]).0 + offsets@[q].1 <= path@.len() && path@.subrange(
                            offsets@[q].0 as int,
                            offsets@[q].0 + offsets@[q].1,
                        ) == path_segments(path@)[q],
                    occurrences_partial(self, keys_view(occ.keys@), occ.ranges@, occ.owners@, i as nat, k as int),
                    occ.keys@.len() == base + k,
                    base <= paths_len(self@.take(i as int)),
                    paths_len(self@.take(i + 1)) == paths_len(self@.take(i as int)) + m.path.len(),
                    paths_len(self@.take(i + 1)) <= paths_len(self@),
                    count <= m.path.len(),
                decreases count - k,
            {
                if occ.keys.len() >= (u32::MAX - 1) as usize {
                    return Err(occ.keys.len());
                }
                let (off, len) = offsets[k];
                let seg = slice_chars(path.as_slice(), off, off + len);
                let key = lower_chars(seg.as_slice());
                let range = PackedTextRange { start: e.path.start + off as u32, len: len as u32 };
                proof {
                    assert(indexed_segments(m)[k as int] == path_segments(path@)[k as int]);
                    assert(self.arena@.subrange(range.start as int, range.start + range.len) =~= path@.subrange(off as int, off + len));
                    assert(range_text(self.arena@, range) == Some(seg@));
                    lemma_occurrences_push(self, keys_view(occ.keys@), occ.ranges@, occ.owners@, i as nat, k as int, key@, range);
                }
                let ghost old_keys = occ.keys@;
                occ.keys.push(key);
                occ.ranges.push(range);
                occ.owners.push(i as u32);
                proof {
                    assert(keys_view(occ.keys@) =~= keys_view(old_keys).push(key@));
                }
                k = k + 1;
            }
            proof {
                let kv = keys_view(occ.keys@);
                assert forall|ii: nat, kk: int|
                    (ii < (i + 1) as nat || (ii == (i + 1) as nat && kk < 0)) && ii < self@.len() && 0 <= kk < indexed_segments(self@[ii as int]).len()
                        implies #[trigger] occurrence_recorded(kv, occ.owners@, ii, indexed_segments(self@[ii as int])[kk]) by {
                    assert(ii < i || (ii == i && kk < count));
                }
            }
            i = i + 1;
        }
        proof {
            assert(self@.take(self@.len() as int) =~= self@);
        }
        Ok(occ)
    }
}

/// `0, 1, .., n - 1`.
fn positions(n: usize) -> (r: Vec<u32>)
    requires
        n <= u32::MAX,
    ensures
        r@.len() == n,
        forall|k: int| 0 <= k < n ==> #[trigger] r@[k] == k,
        forall|p: u32| #[trigger] r@.contains(p) <==> p < n,
{
    let mut out: Vec<u32> = Vec::new();
    let mut i: usize = 0;
    while i < n
        invariant
            i <= n <= u32::MAX,
            out@.len() == i,
            forall|k: int| 0 <= k < i ==> #[trigger] out@[k] == k,
        decreases n - i,
    {
        out.push(i as u32);
        i = i + 1;
    }
    proof {
        assert forall|p: u32| #[trigger] out@.contains(p) <==> p < n by {
            if p < n {
                assert(out@[p as int] == p);
            }
        }
    }
    out
}

/// The segment buckets under construction, with the key and the first
/// occurrence of each.
spec fn buckets_sound(
    table: &EntryTable,
    kv: Seq<Seq<char>>,
    owners: Seq<u32>,
    ranges: Seq<PackedTextRange>,
    buckets: Seq<SegmentBucket>,
    ids: Seq<EntryId>,
    reps: Seq<u32>,
) -> bool {
    &&& reps.len() == buckets.len()
    &&& forall|b: int|
        0 <= b < buckets.len() ==> {
            let bk = #[trigger] buckets[b];
            &&& reps[b] < kv.len()
            &&& bk.text == ranges[reps[b] as int]
            &&& bk.start + bk.len <= ids.len()
            &&& strictly_ascending(slice_of(ids, bk))
            &&& forall|id: EntryId| #[trigger] slice_of(ids, bk).contains(id) ==> exists|j: int|
                0 <= j < kv.len() && owners[j] == id.value() && #[trigger] kv[j] == kv[reps[b] as int]
        }
    &&& forall|a: int, b: int| 0 <= a < b < buckets.len() ==> seq_lt(kv[#[trigger] reps[a] as int], kv[#[trigger] reps[b] as int])
}

proof fn lemma_slice_stable(ids: Seq<EntryId>, more: Seq<EntryId>, b: SegmentBucket)
    requires
        b.start + b.len <= ids.len(),
    ensures
        slice_of(ids + more, b) == slice_of(ids, b),
{
    assert(slice_of(ids + more, b) =~= slice_of(ids, b));
}

/// The identifiers of the run of equal keys that starts at `run_start`, and the
/// position after it.
fn collect_run(keys: &Vec<Vec<char>>, owners: &Vec<u32>, order: &Vec<u32>, run_start: usize) -> (r: (
    Vec<EntryId>,
    usize,
))
    requires
        run_start < order@.len(),
        keys@.len() == owners@.len(),
        occ_sorted(keys_view(keys@), order@),
        forall|k: int| 0 <= k < order@.len() ==> #[trigger] order@[k] < keys@.len(),
        forall|j1: int, j2: int| 0 <= j1 < j2 < owners@.len() ==> #[trigger] owners@[j1] <= #[trigger] owners@[j2],
    ensures
        run_start < r.1 <= order@.len(),
        forall|y: int| run_start <= y < r.1 ==> keys_view(keys@)[#[trigger] order@[y] as int] == keys_view(keys@)[order@[run_start as int] as int],
        r.1 < order@.len() ==> keys_view(keys@)[order@[r.1 as int] as int] != keys_view(keys@)[order@[run_start as int] as int],
        strictly_ascending(r.0@),
        r.0@.len() <= r.1 - run_start,
        forall|id: EntryId| #[trigger] r.0@.contains(id) ==> exists|y: int|
            run_start <= y < r.1 && owners@[#[trigger] order@[y] as int] == id.value(),
        forall|y: int| run_start <= y < r.1 ==> r.0@.contains(EntryId(owners@[#[trigger] order@[y] as int])),
{
    let ghost kv = keys_view(keys@);
    let j0 = order[run_start];
    let mut x = run_start;
    let mut bucket_ids: Vec<EntryId> = Vec::new();
    while x < order.len() && crate::text::chars_eq(keys[order[x] as usize].as_slice(), keys[j0 as usize].as_slice())
        invariant
            run_start <= x <= order@.len(),
            run_start < order@.len(),
            j0 == order@[run_start as int],
            kv == keys_view(keys@),
            keys@.len() == owners@.len(),
            occ_sorted(kv, order@),
            forall|k: int| 0 <= k < order@.len() ==> #[trigger] order@[k] < keys@.len(),
            forall|j1: int, j2: int| 0 <= j1 < j2 < owners@.len() ==> #[trigger] owners@[j1] <= #[trigger] owners@[j2],
            forall|y: int| run_start <= y < x ==> kv[#[trigger] order@[y] as int] == kv[j0 as int],
            strictly_ascending(bucket_ids@),
            forall|id: EntryId| #[trigger] bucket_ids@.contains(id) ==> exists|y: int|
                run_start <= y < x && owners@[#[trigger] order@[y] as int] == id.value(),
            forall|y: int| run_start <= y < x ==> bucket_ids@.contains(EntryId(owners@[#[trigger] order@[y] as int])),
            x > run_start ==> bucket_ids@.len() > 0 && bucket_ids@.last().value() == owners@[order@[x - 1] as int],
            x == run_start ==> bucket_ids@.len() == 0,
            bucket_ids@.len() <= x - run_start,
        decreases order@.len() - x,
    {
        let j = order[x];
        let id = owners[j as usize];
        let ghost before = bucket_ids@;
        proof {
            assert(kv[j as int] == kv[j0 as int]);
            if x > run_start {
                let jp = order@[x - 1];
                assert(occ_lt(kv, jp, j));
                assert(kv[jp as int] == kv[j as int]);
                if seq_lt(kv[jp as int], kv[j as int]) {
                    lemma_seq_lt_irreflexive(kv[j as int]);
                }
                assert(jp < j);
                assert(owners@[jp as int] <= owners@[j as int]);
            }
        }
        if bucket_ids.len() == 0 || bucket_ids[bucket_ids.len() - 1].0 != id {
            bucket_ids.push(EntryId(id));
            proof {
                lemma_push_contains(before, EntryId(id));
                if before.len() > 0 {
                    assert forall|k: int| 0 <= k < before.len() implies #[trigger] before[k].value() < EntryId(id).value() by {
                        if k < before.len() - 1 {
                            assert(before[k].value() < before[before.len() - 1].value());
                        }
                    }
                }
                lemma_push_ascending(before, EntryId(id));
            }
        } else {
            proof {
                assert(bucket_ids@[bucket_ids@.len() - 1] == EntryId(id));
            }
        }
        x = x + 1;
        proof {
            lemma_push_contains(before, EntryId(id));
            assert forall|idv: EntryId| #[trigger] bucket_ids@.contains(idv) implies exists|y: int|
                run_start <= y < x && owners@[#[trigger] order@[y] as int] == idv.value() by {
                if before.contains(idv) {
                    let y = choose|y: int| run_start <= y < x - 1 && owners@[#[trigger] order@[y] as int] == idv.value();
                } else {
                    assert(idv == EntryId(id));
                    assert(owners@[order@[x - 1] as int] == idv.value());
                }
            }
            assert forall|y: int| run_start <= y < x implies bucket_ids@.contains(EntryId(owners@[#[trigger] order@[y] as int])) by {
                if y < x - 1 {
                    assert(before.contains(EntryId(owners@[order@[y] as int])));
                } else {
                    if bucket_ids@ == before {
                        assert(bucket_ids@[bucket_ids@.len() - 1] == EntryId(id));
                    }
                }
            }
        }
    }
    (bucket_ids, x)
}

fn append_ids(ids: &mut Vec<EntryId>, more: &Vec<EntryId>)
    ensures
        final(ids)@ == old(ids)@ + more@,
{
    let ghost before = ids@;
    let mut q: usize = 0;
    while q < more.len()
        invariant
            q <= more@.len(),
            ids@ == before + more@.take(q as int),
        decreases more@.len() - q,
    {
        ids.push(more[q]);
        q = q + 1;
        assert(ids@ =~= before + more@.take(q as int));
    }
    assert(more@.take(more@.len() as int) =~= more@);
}

/// After a run becomes the last bucket, every occurrence up to the run's end lies
/// in a bucket of its key.
proof fn lemma_run_recorded(
    kv: Seq<Seq<char>>,
    owners: Seq<u32>,
    order: Seq<u32>,
    buckets: Seq<SegmentBucket>,
    ids: Seq<EntryId>,
    reps: Seq<u32>,
    new_buckets: Seq<SegmentBucket>,
    new_ids: Seq<EntryId>,
    new_reps: Seq<u32>,
    run_start: int,
    next: int,
    bucket_ids: Seq<EntryId>,
)
    requires
        0 <= run_start < next <= order.len(),
        forall|y: int| 0 <= y < run_start ==> exists|b: int| 0 <= b < buckets.len() && kv[reps[b] as int] == kv[#[trigger] order[y] as int]
            && slice_of(ids, buckets[b]).contains(EntryId(owners[order[y] as int])),
        new_buckets.len() == buckets.len() + 1,
        new_reps.len() == reps.len() + 1,
        reps.len() == buckets.len(),
        forall|b: int| 0 <= b < buckets.len() ==> new_buckets[b] == buckets[b] && new_reps[b] == reps[b]
            && slice_of(new_ids, #[trigger] buckets[b]) == slice_of(ids, buckets[b]),
        new_reps.last() == order[run_start],
        slice_of(new_ids, new_buckets.last()) == bucket_ids,
        forall|y: int| run_start <= y < next ==> kv[#[trigger] order[y] as int] == kv[order[run_start] as int],
        forall|y: int| run_start <= y < next ==> bucket_ids.contains(EntryId(owners[#[trigger] order[y] as int])),
    ensures
        forall|y: int| 0 <= y < next ==> exists|b: int| 0 <= b < new_buckets.len() && kv[new_reps[b] as int] == kv[#[trigger] order[y] as int]
            && slice_of(new_ids, new_buckets[b]).contains(EntryId(owners[order[y] as int])),
{
    assert forall|y: int| 0 <= y < next implies exists|b: int| 0 <= b < new_buckets.len() && kv[new_reps[b] as int] == kv[#[trigger] order[y] as int]
        && slice_of(new_ids, new_buckets[b]).contains(EntryId(owners[order[y] as int])) by {
        if y < run_start {
            let b = choose|b: int| 0 <= b < buckets.len() && kv[reps[b] as int] == kv[#[trigger] order[y] as int]
                && slice_of(ids, buckets[b]).contains(EntryId(owners[order[y] as int]));
            assert(new_buckets[b] == buckets[b] && new_reps[b] == reps[b]);
            assert(slice_of(new_ids, buckets[b]) == slice_of(ids, buckets[b]));
        } else {
            let b = new_buckets.len() - 1;
            assert(kv[order[y] as int] == kv[order[run_start] as int]);
            assert(new_reps[b] == order[run_start]);
            assert(new_buckets[b] == new_buckets.last());
            assert(slice_of(new_ids, new_buckets[b]) == bucket_ids);
            assert(bucket_ids.contains(EntryId(owners[order[y] as int])));
        }
    }
}

/// Appending a bucket whose key follows every earlier one keeps the buckets sound.
proof fn lemma_buckets_push(
    table: &EntryTable,
    kv: Seq<Seq<char>>,
    owners: Seq<u32>,
    ranges: Seq<PackedTextRange>,
    buckets: Seq<SegmentBucket>,
    ids: Seq<EntryId>,
    reps: Seq<u32>,
    bucket: SegmentBucket,
    bucket_ids: Seq<EntryId>,
    j0: u32,
)
    requires
        buckets_sound(table, kv, owners, ranges, buckets, ids, reps),
        j0 < kv.len(),
        bucket.text == ranges[j0 as int],
        bucket.start == ids.len(),
        bucket.len == bucket_ids.len(),
        strictly_ascending(bucket_ids),
        forall|id: EntryId| #[trigger] bucket_ids.contains(id) ==> exists|j: int|
            0 <= j < kv.len() && owners[j] == id.value() && #[trigger] kv[j] == kv[j0 as int],
        buckets.len() > 0 ==> seq_lt(kv[reps.last() as int], kv[j0 as int]),
    ensures
        buckets_sound(table, kv, owners, ranges, buckets.push(bucket), ids + bucket_ids, reps.push(j0)),
        forall|b: int| 0 <= b < buckets.len() ==> slice_of(ids + bucket_ids, #[trigger] buckets[b]) == slice_of(ids, buckets[b]),
        slice_of(ids + bucket_ids, bucket) == bucket_ids,
{
    let nb = buckets.push(bucket);
    let ni = ids + bucket_ids;
    let nr = reps.push(j0);
    assert forall|b: int| 0 <= b < buckets.len() implies slice_of(ni, #[trigger] buckets[b]) == slice_of(ids, buckets[b]) by {
        lemma_slice_stable(ids, bucket_ids, buckets[b]);
    }
    assert(slice_of(ni, bucket) =~= bucket_ids);
    assert forall|b: int| 0 <= b < nb.len() implies {
        let bk = #[trigger] nb[b];
        &&& nr[b] < kv.len()
        &&& bk.text == ranges[nr[b] as int]
        &&& bk.start + bk.len <= ni.len()
        &&& strictly_ascending(slice_of(ni, bk))
        &&& forall|id: EntryId| #[trigger] slice_of(ni, bk).contains(id) ==> exists|j: int|
            0 <= j < kv.len() && owners[j] == id.value() && #[trigger] kv[j] == kv[nr[b] as int]
    } by {
        if b < buckets.len() {
            assert(nb[b] == buckets[b] && nr[b] == reps[b]);
            assert(slice_of(ni, buckets[b]) == slice_of(ids, buckets[b]));
        } else {
            assert(nb[b] == bucket && nr[b] == j0);
        }
    }
    assert forall|a: int, b: int| 0 <= a < b < nb.len() implies seq_lt(kv[#[trigger] nr[a] as int], kv[#[trigger] nr[b] as int]) by {
        if b < buckets.len() {
            assert(nr[a] == reps[a] && nr[b] == reps[b]);
        } else {
            assert(nr[b] == j0);
            assert(nr[a] == reps[a]);
            if a < buckets.len() - 1 {
                assert(seq_lt(kv[reps[a] as int], kv[reps[buckets.len() - 1] as int]));
                lemma_seq_lt_transitive(kv[reps[a] as int], kv[reps.last() as int], kv[j0 as int]);
            }
        }
    }
}

impl PathSegmentIndex {
    pub fn build(table: &EntryTable) -> (r: Result<Self, CompactIndexBuildError>)
        ensures
            match r {
                Ok(index) => index.indexes(table),
                Err(CompactIndexBuildError::TooManySegmentPostings { count }) => count >= u32::MAX - 1,
                Err(CompactIndexBuildError::TooManyPathSegmentBuckets { count }) => count > u32::MAX,
                Err(_) => false,
            },
            paths_len(table@) < u32::MAX - 1 ==> r is Ok,
    {
        Self::build_with_limits(table, u32::MAX as usize, u32::MAX as usize)
    }

    #[verifier::rlimit(40)]
    pub fn build_with_limits(table: &EntryTable, max_postings: usize, max_buckets: usize) -> (r: Result<
        Self,
        CompactIndexBuildError,
    >)
        ensures
            match r {
                Ok(index) => index.indexes(table),
                Err(CompactIndexBuildError::TooManySegmentPostings { count }) => (count > max_postings || count
                    >= u32::MAX - 1) && count <= paths_len(table@),
                Err(CompactIndexBuildError::TooManyPathSegmentBuckets { count }) => (count > max_buckets || count
                    > u32::MAX) && count <= paths_len(table@),
                Err(_) => false,
            },
            paths_len(table@) < u32::MAX - 1 && paths_len(table@) <= max_postings && paths_len(table@)
                <= max_buckets ==> r is Ok,
            paths_len(table@) < u32::MAX - 1 && max_postings >= u32::MAX && max_buckets >= u32::MAX ==> r is Ok,
    {
        let occ = match table.segment_occurrences() {
            Ok(o) => o,
            Err(count) => return Err(CompactIndexBuildError::TooManySegmentPostings { count }),
        };
        let ghost kv = keys_view(occ.keys@);
        let n = occ.keys.len();
        let all = positions(n);
        let order = sort_occ(&occ.keys, all.as_slice());
        proof {
            assert forall|j: int| 0 <= j < n implies #[trigger] order@.contains(j as u32) by {
                assert(all@.contains(j as u32));
            }
        }
        let mut buckets: Vec<SegmentBucket> = Vec::new();
        let mut ids: Vec<EntryId> = Vec::new();
        let mut fuzzy_pairs: Vec<(u32, EntryId)> = Vec::new();
        let ghost mut reps: Seq<u32> = Seq::empty();
        let mut x: usize = 0;
        while x < order.len()
            invariant
                x <= order@.len(),
                kv == keys_view(occ.keys@),
                n == kv.len(),
                occurrences_partial(table, kv, occ.ranges@, occ.owners@, table@.len(), 0),
                occ_sorted(kv, order@),
                forall|k: int| 0 <= k < order@.len() ==> #[trigger] order@[k] < n,
                buckets_sound(table, kv, occ.owners@, occ.ranges@, buckets@, ids@, reps),
                x == 0 ==> buckets@.len() == 0,
                x > 0 ==> buckets@.len() > 0 && kv[reps.last() as int] == kv[order@[x - 1] as int],
                forall|y: int| 0 <= y < x ==> exists|b: int| 0 <= b < buckets@.len() && kv[reps[b] as int] == kv[#[trigger] order@[y] as int]
                    && slice_of(ids@, buckets@[b]).contains(EntryId(occ.owners@[order@[y] as int])),
                forall|b: int| 0 <= b < buckets@.len() ==> {
                    let t = text_or_empty(range_text(table.arena_view(), (#[trigger] buckets@[b]).text));
                    t.len() > 0 ==> fuzzy_pairs@.contains((fingerprint(fuzzy_key(t)), id_with_value(b as nat)))
                },
                buckets@.len() <= x,
                ids@.len() <= x,
                n <= paths_len(table@),
                order@.len() <= n < u32::MAX,
                x > 0 && x < order@.len() ==> kv[order@[x as int] as int] != kv[order@[x - 1] as int],
            decreases order@.len() - x,
        {
            let run_start = x;
            let j0 = order[x];
            let (bucket_ids, next) = collect_run(&occ.keys, &occ.owners, &order, x);
            let start = ids.len();
            let posting_count = start.saturating_add(bucket_ids.len());
            if posting_count > max_postings || posting_count > u32::MAX as usize {
                return Err(CompactIndexBuildError::TooManySegmentPostings { count: posting_count });
            }
            let ghost ids_before = ids@;
            append_ids(&mut ids, &bucket_ids);
            let bucket = SegmentBucket {
                text: occ.ranges[j0 as usize],
                start: start as u32,
                len: bucket_ids.len() as u32,
            };
            let text = match table.text(bucket.text) {
                Some(t) => t,
                None => Vec::new(),
            };
            let b_index = buckets.len();
            let ghost pairs_before = fuzzy_pairs@;
            if text.len() > 0 {
                if b_index > max_buckets || b_index > u32::MAX as usize {
                    return Err(CompactIndexBuildError::TooManyPathSegmentBuckets { count: b_index.saturating_add(1) });
                }
                let key = slice_chars(text.as_slice(), 0, 1);
                let fp = text_fingerprint(key.as_slice());
                fuzzy_pairs.push((fp, EntryId(b_index as u32)));
                proof {
                    lemma_push_pair_contains(pairs_before, (fp, EntryId(b_index as u32)));
                    assert(key@ =~= fuzzy_key(text@));
                }
            }
            let ghost buckets_before = buckets@;
            let ghost reps_before = reps;
            proof {
                assert forall|id: EntryId| #[trigger] bucket_ids@.contains(id) implies exists|j: int|
                    0 <= j < kv.len() && occ.owners@[j] == id.value() && #[trigger] kv[j] == kv[j0 as int] by {
                    let y = choose|y: int| run_start <= y < next && occ.owners@[#[trigger] order@[y] as int] == id.value();
                    assert(kv[order@[y] as int] == kv[j0 as int]);
                }
                if buckets_before.len() > 0 {
                    let jp = order@[run_start - 1];
                    assert(occ_lt(kv, jp, j0));
                    assert(kv[jp as int] != kv[j0 as int]);
                }
                lemma_buckets_push(table, kv, occ.owners@, occ.ranges@, buckets_before, ids_before, reps_before, bucket, bucket_ids@, j0);
            }
            buckets.push(bucket);
            x = next;
            proof {
                reps = reps.push(j0);
                assert(text@ == text_or_empty(range_text(table.arena_view(), bucket.text)));
                assert(kv[order@[x - 1] as int] == kv[j0 as int]);
                assert forall|b: int| 0 <= b < buckets_before.len() implies buckets@[b] == buckets_before[b] && reps[b] == reps_before[b]
                    && slice_of(ids@, #[trigger] buckets_before[b]) == slice_of(ids_before, buckets_before[b]) by {}
                lemma_run_recorded(kv, occ.owners@, order@, buckets_before, ids_before, reps_before, buckets@, ids@, reps,
                    run_start as int, next as int, bucket_ids@);
                assert forall|b: int| 0 <= b < buckets@.len() implies {
                    let t = text_or_empty(range_text(table.arena_view(), (#[trigger] buckets@[b]).text));
                    t.len() > 0 ==> fuzzy_pairs@.contains((fingerprint(fuzzy_key(t)), id_with_value(b as nat)))
                } by {
                    if b < buckets_before.len() {
                        assert(buckets@[b] == buckets_before[b]);
                        let t = text_or_empty(range_text(table.arena_view(), buckets_before[b].text));
                        if t.len() > 0 {
                            assert(pairs_before.contains((fingerprint(fuzzy_key(t)), id_with_value(b as nat))));
                            if fuzzy_pairs@ != pairs_before {
                                lemma_push_pair_contains(pairs_before, fuzzy_pairs@.last());
                                assert(fuzzy_pairs@ == pairs_before.push(fuzzy_pairs@.last()));
                            }
                        }
                    } else {
                        assert(id_with_value(b as nat) == EntryId(b_index as u32));
                    }
                }
            }
        }
        let fuzzy_buckets = FingerprintIndex::from_pairs(fuzzy_pairs);
        let index = PathSegmentIndex { buckets, ids, fuzzy_buckets };
        proof {
            lemma_segment_index_complete(table, &index, kv, occ.owners@, occ.ranges@, order@, reps);
        }
        Ok(index)
    }
}

proof fn lemma_segment_index_complete(
    table: &EntryTable,
    index: &PathSegmentIndex,
    kv: Seq<Seq<char>>,
    owners: Seq<u32>,
    ranges: Seq<PackedTextRange>,
    order: Seq<u32>,
    reps: Seq<u32>,
)
    requires
        index.buckets@.len() <= u32::MAX,
        occurrences_partial(table, kv, ranges, owners, table@.len(), 0),
        buckets_sound(table, kv, owners, ranges, index.buckets@, index.ids@, reps),
        forall|j: int| 0 <= j < kv.len() ==> #[trigger] order.contains(j as u32),
        forall|y: int| 0 <= y < order.len() ==> exists|b: int| 0 <= b < index.buckets@.len() && kv[reps[b] as int] == kv[#[trigger] order[y] as int]
            && slice_of(index.ids@, index.buckets@[b]).contains(EntryId(owners[order[y] as int])),
        forall|b: int| 0 <= b < index.buckets@.len() ==> {
            let t = text_or_empty(range_text(table.arena_view(), (#[trigger] index.buckets@[b]).text));
            t.len() > 0 ==> index.fuzzy_buckets.has(fingerprint(fuzzy_key(t)), id_with_value(b as nat))
        },
    ensures
        index.indexes(table),
{
    assert forall|b: int| 0 <= b < index.buckets@.len() implies #[trigger] index.bucket_ok(table, b) by {
        let bk = index.buckets@[b];
        let rep = reps[b] as int;
        let t = index.bucket_text(table, b);
        assert(bk.text == ranges[rep]);
        assert(range_text(table.arena_view(), ranges[rep]) is Some);
        assert(kv[rep] == lower(t));
        let kr = choose|k: int| 0 <= k < indexed_segments(table@[owners[rep] as int]).len()
            && #[trigger] indexed_segments(table@[owners[rep] as int])[k] == t;
        assert(indexed_segments(table@[owners[rep] as int])[kr] == t);
        assert forall|id: EntryId| #[trigger] slice_of(index.ids@, bk).contains(id) implies id.value() < table@.len()
            && has_segment_equal(table@[id.value() as int], t) by {
            let j = choose|j: int| 0 <= j < kv.len() && owners[j] == id.value() && #[trigger] kv[j] == kv[rep];
            let tj = text_or_empty(range_text(table.arena_view(), ranges[j]));
            assert(kv[j] == lower(tj));
            let kj = choose|k: int| 0 <= k < indexed_segments(table@[owners[j] as int]).len()
                && #[trigger] indexed_segments(table@[owners[j] as int])[k] == tj;
            assert(lower(indexed_segments(table@[id.value() as int])[kj]) == lower(t));
        }
    }
    assert forall|a: int, b: int| 0 <= a < b < index.buckets@.len() implies seq_lt(lower(#[trigger] index.bucket_text(table, a)), lower(
        #[trigger] index.bucket_text(table, b))) by {
        assert(kv[reps[a] as int] == lower(index.bucket_text(table, a)));
        assert(kv[reps[b] as int] == lower(index.bucket_text(table, b)));
    }
    assert forall|i: nat, k: int|
        i < table@.len() && 0 <= k < indexed_segments(table@[i as int]).len() implies #[trigger] index.segment_bucketed(
            table, i, indexed_segments(table@[i as int])[k]) by {
        let seg = indexed_segments(table@[i as int])[k];
        assert(occurrence_recorded(kv, owners, i, seg));
        let j = choose|j: int| 0 <= j < kv.len() && owners[j] == i && #[trigger] kv[j] == lower(seg);
        assert(order.contains(j as u32));
        let y = choose|y: int| 0 <= y < order.len() && order[y] == j as u32;
        assert(kv[order[y] as int] == kv[j]);
        let b = choose|b: int| 0 <= b < index.buckets@.len() && kv[reps[b] as int] == kv[#[trigger] order[y] as int]
            && slice_of(index.ids@, index.buckets@[b]).contains(EntryId(owners[order[y] as int]));
        assert(EntryId(owners[j]) == id_with_value(i));
        assert(kv[reps[b] as int] == lower(index.bucket_text(table, b)));
        assert(lower(index.bucket_text(table, b)) == lower(seg));
        assert(slice_of(index.ids@, index.buckets@[b]).contains(id_with_value(i)));
    }
}

/// Some entry of `j` has a segment `t` with the lower-cased text of `s`, whose
/// first character is `key` and which holds every letter of `q`.
pub open spec fn fuzzy_representative(models: Seq<EntryModel>, s: Seq<char>, q: Seq<char>) -> bool {
    exists|j: int, k: int|
        0 <= j < models.len() && 0 <= k < indexed_segments(models[j]).len() && {
            let t = #[trigger] indexed_segments(models[j])[k];
            &&& lower(t) == lower(s)
            &&& fuzzy_key(t) == lower(q).take(1)
            &&& letters_cover(t, lower(q))
        }
}

/// Every segment of the table spelled like `seg` up to ASCII case is non-empty,
/// starts with `q`'s first character and holds all of `q`'s letters.
pub open spec fn fuzzy_group_uniform(models: Seq<EntryModel>, seg: Seq<char>, q: Seq<char>) -> bool {
    forall|j: int, k: int|
        0 <= j < models.len() && 0 <= k < indexed_segments(models[j]).len() && lower(
            #[trigger] indexed_segments(models[j])[k],
        ) == lower(seg) ==> {
            let t = indexed_segments(models[j])[k];
            &&& t.len() > 0
            &&& fuzzy_key(t) == q.take(1)
            &&& letters_cover(t, q)
        }
}

/// An entry the fuzzy fallback is sure to return for `q`: one of its segments
/// is such that every spelling of it in the table starts with `q`'s first
/// character and holds all of `q`'s letters.
pub open spec fn fuzzy_group_match(models: Seq<EntryModel>, i: int, q: Seq<char>) -> bool {
    &&& q.len() > 0
    &&& exists|k: int| 0 <= k < indexed_segments(models[i]).len() && fuzzy_group_uniform(models, #[trigger] indexed_segments(models[i])[k], q)
}

/// An entry that the fuzzy fallback may return for `q`: it has a segment whose
/// bucket is headed by a segment text starting with `q`'s first character and
/// holding all of `q`'s letters.
pub open spec fn fuzzy_segment_match(models: Seq<EntryModel>, i: int, q: Seq<char>) -> bool {
    &&& q.len() > 0
    &&& exists|k: int| 0 <= k < indexed_segments(models[i]).len() && fuzzy_representative(models, #[trigger] indexed_segments(models[i])[k], q)
}

impl PathSegmentIndex {
    /// The lower-cased text of bucket `b`.
    fn bucket_key(&self, table: &EntryTable, b: usize) -> (r: Vec<char>)
        requires
            b < self.buckets@.len(),
        ensures
            r@ == lower(self.bucket_text(table, b as int)),
    {
        let text = match table.text(self.buckets[b].text) {
            Some(t) => t,
            None => Vec::new(),
        };
        lower_chars(text.as_slice())
    }

    /// First bucket whose key does not sort before `q` (for a sorted index).
    fn bucket_lower_bound(&self, table: &EntryTable, q: &[char]) -> (r: usize)
        ensures
            r <= self.buckets@.len(),
            self.indexes(table) ==> forall|b: int| 0 <= b < r ==> seq_lt(lower(#[trigger] self.bucket_text(table, b)), q@),
            self.indexes(table) ==> forall|b: int| r <= b < self.buckets@.len() ==> !seq_lt(lower(#[trigger] self.bucket_text(table, b)), q@),
    {
        let ghost sorted = self.indexes(table);
        let mut lo: usize = 0;
        let mut hi: usize = self.buckets.len();
        while lo < hi
            invariant
                lo <= hi <= self.buckets@.len(),
                sorted == self.indexes(table),
                sorted ==> forall|b: int| 0 <= b < lo ==> seq_lt(lower(#[trigger] self.bucket_text(table, b)), q@),
                sorted ==> forall|b: int| hi <= b < self.buckets@.len() ==> !seq_lt(lower(#[trigger] self.bucket_text(table, b)), q@),
            decreases hi - lo,
        {
            let mid = lo + (hi - lo) / 2;
            let key = self.bucket_key(table, mid);
            if lex_less(key.as_slice(), q) {
                proof {
                    if sorted {
                        assert forall|b: int| 0 <= b < mid + 1 implies seq_lt(lower(#[trigger] self.bucket_text(table, b)), q@) by {
                            if b < mid {
                                assert(seq_lt(lower(self.bucket_text(table, b)), lower(self.bucket_text(table, mid as int))));
                                lemma_seq_lt_transitive(lower(self.bucket_text(table, b)), lower(self.bucket_text(table, mid as int)), q@);
                            }
                        }
                    }
                }
                lo = mid + 1;
            } else {
                proof {
                    if sorted {
                        assert forall|b: int| mid <= b < self.buckets@.len() implies !seq_lt(lower(#[trigger] self.bucket_text(table, b)), q@) by {
                            if b > mid {
                                assert(seq_lt(lower(self.bucket_text(table, mid as int)), lower(self.bucket_text(table, b))));
                                if seq_lt(lower(self.bucket_text(table, b)), q@) {
                                    lemma_seq_lt_transitive(lower(self.bucket_text(table, mid as int)), lower(self.bucket_text(table, b)), q@);
                                }
                            }
                        }
                    }
                }
                hi = mid;
            }
        }
        lo
    }

    /// The identifiers of a list of this index's buckets, ascending.
    fn collect_bucket_ids(&self, chosen: &Vec<usize>) -> (r: Vec<EntryId>)
        requires
            forall|k: int| 0 <= k < chosen@.len() ==> #[trigger] chosen@[k] < self.buckets@.len(),
        ensures
            strictly_ascending(r@),
            forall|id: EntryId| #[trigger] r@.contains(id) <==> exists|k: int|
                0 <= k < chosen@.len() && slice_of(self.ids@, self.buckets@[#[trigger] chosen@[k] as int]).contains(id),
    {
        proof {
            use_type_invariant(self);
        }
        let mut out: Vec<EntryId> = Vec::new();
        let mut k: usize = 0;
        while k < chosen.len()
            invariant
                k <= chosen@.len(),
                forall|q: int| 0 <= q < chosen@.len() ==> #[trigger] chosen@[q] < self.buckets@.len(),
                forall|b: int|
                    0 <= b < self.buckets@.len() ==> {
                        let bk = #[trigger] self.buckets@[b];
                        &&& bk.start + bk.len <= self.ids@.len()
                        &&& strictly_ascending(slice_of(self.ids@, bk))
                    },
                strictly_ascending(out@),
                forall|id: EntryId| #[trigger] out@.contains(id) <==> exists|q: int|
                    0 <= q < k && slice_of(self.ids@, self.buckets@[#[trigger] chosen@[q] as int]).contains(id),
            decreases chosen@.len() - k,
        {
            let ids = self.bucket_ids(chosen[k]);
            let ghost before = out@;
            out = union_sorted_ids(out, ids);
            proof {
                assert forall|id: EntryId| #[trigger] out@.contains(id) <==> exists|q: int|
                    0 <= q < k + 1 && slice_of(self.ids@, self.buckets@[#[trigger] chosen@[q] as int]).contains(id) by {
                    if exists|q: int| 0 <= q < k + 1 && slice_of(self.ids@, self.buckets@[#[trigger] chosen@[q] as int]).contains(id) {
                        let q = choose|q: int| 0 <= q < k + 1 && slice_of(self.ids@, self.buckets@[#[trigger] chosen@[q] as int]).contains(id);
                        if q < k {
                            assert(before.contains(id));
                        }
                    }
                }
            }
            k = k + 1;
        }
        out
    }

    /// The identifiers of bucket `b`.
    fn bucket_ids(&self, b: usize) -> (r: Vec<EntryId>)
        requires
            b < self.buckets@.len(),
        ensures
            r@ == slice_of(self.ids@, self.buckets@[b as int]),
            strictly_ascending(r@),
    {
        proof {
            use_type_invariant(self);
        }
        let bk = self.buckets[b];
        let total = self.ids.len();
        let start = bk.start as usize;
        let end = start + bk.len as usize;
        let mut out: Vec<EntryId> = Vec::new();
        let mut i: usize = start;
        while i < end
            invariant
                start <= i <= end <= self.ids@.len(),
                out@ == self.ids@.subrange(start as int, i as int),
            decreases end - i,
        {
            out.push(self.ids[i]);
            i = i + 1;
            assert(out@ =~= self.ids@.subrange(start as int, i as int));
        }
        out
    }
}

impl PathSegmentIndex {
    /// Buckets `start..` whose key starts with `q`, up to the first that does not.
    fn matching_buckets(&self, table: &EntryTable, q: &[char]) -> (r: Vec<usize>)
        ensures
            forall|k: int| 0 <= k < r@.len() ==> #[trigger] r@[k] < self.buckets@.len()
                && has_prefix(lower(self.bucket_text(table, r@[k] as int)), q@),
            self.indexes(table) ==> forall|b: int|
                0 <= b < self.buckets@.len() && has_prefix(lower(#[trigger] self.bucket_text(table, b)), q@)
                    ==> r@.contains(b as usize),
    {
        let ghost sorted = self.indexes(table);
        let start = self.bucket_lower_bound(table, q);
        let mut out: Vec<usize> = Vec::new();
        let mut b = start;
        let mut more = true;
        while b < self.buckets.len() && more
            invariant
                start <= b <= self.buckets@.len(),
                sorted == self.indexes(table),
                sorted ==> forall|x: int| 0 <= x < start ==> seq_lt(lower(#[trigger] self.bucket_text(table, x)), q@),
                sorted ==> forall|x: int| start <= x < self.buckets@.len() ==> !seq_lt(lower(#[trigger] self.bucket_text(table, x)), q@),
                out@.len() == b - start,
                forall|k: int| 0 <= k < out@.len() ==> #[trigger] out@[k] == start + k,
                forall|x: int| start <= x < b ==> has_prefix(lower(#[trigger] self.bucket_text(table, x)), q@),
                !more ==> b < self.buckets@.len() && !has_prefix(lower(self.bucket_text(table, b as int)), q@),
            decreases (self.buckets@.len() - b) * 2 + (if more { 1int } else { 0int }),
        {
            let key = self.bucket_key(table, b);
            if starts_with_chars(key.as_slice(), q) {
                out.push(b);
                b = b + 1;
            } else {
                more = false;
            }
        }
        proof {
            if sorted {
                assert forall|x: int|
                    0 <= x < self.buckets@.len() && has_prefix(lower(#[trigger] self.bucket_text(table, x)), q@)
                        implies out@.contains(x as usize) by {
                    lemma_prefix_not_below(lower(self.bucket_text(table, x)), q@);
                    assert(x >= start);
                    if x >= b {
                        assert(!more);
                        if x > b {
                            assert(seq_lt(lower(self.bucket_text(table, b as int)), lower(self.bucket_text(table, x))));
                            lemma_prefix_block(lower(self.bucket_text(table, b as int)), lower(self.bucket_text(table, x)), q@);
                        }
                    }
                    assert(out@[x - start] == x);
                }
            }
        }
        out
    }

    /// Identifiers of entries with a segment equal to `q` (lower-cased) when any
    /// has one, else of entries with a segment that starts with it.
    fn lookup_precise(&self, table: &EntryTable, q: &[char]) -> (r: Vec<EntryId>)
        requires
            q@ == lower(q@),
        ensures
            strictly_ascending(r@),
            self.indexes(table) ==> lists_exactly(r@, table@.len(), |i: nat| precise_segment_match(table@, i as int, q@)),
    {
        proof {
            use_type_invariant(self);
        }
        let matching = self.matching_buckets(table, q);
        let mut exact: Option<usize> = None;
        let mut k: usize = 0;
        while k < matching.len()
            invariant
                k <= matching@.len(),
                forall|x: int| 0 <= x < matching@.len() ==> #[trigger] matching@[x] < self.buckets@.len()
                    && has_prefix(lower(self.bucket_text(table, matching@[x] as int)), q@),
                match exact {
                    Some(e) => e < self.buckets@.len() && lower(self.bucket_text(table, e as int)) == q@,
                    None => forall|x: int| 0 <= x < k ==> lower(self.bucket_text(table, #[trigger] matching@[x] as int)) != q@,
                },
            decreases matching@.len() - k,
        {
            if exact.is_none() {
                let key = self.bucket_key(table, matching[k]);
                if crate::text::chars_eq(key.as_slice(), q) {
                    exact = Some(matching[k]);
                }
            }
            k = k + 1;
        }
        let r = match exact {
            Some(e) => self.bucket_ids(e),
            None => self.collect_bucket_ids(&matching),
        };
        let nb = self.buckets.len();
        proof {
            if self.indexes(table) {
                lemma_precise_lookup(self, table, q@, matching@, exact, r@);
            }
        }
        r
    }
}

proof fn lemma_precise_lookup(
    index: &PathSegmentIndex,
    table: &EntryTable,
    q: Seq<char>,
    matching: Seq<usize>,
    exact: Option<usize>,
    r: Seq<EntryId>,
)
    requires
        index.indexes(table),
        index.buckets@.len() <= usize::MAX,
        q == lower(q),
        strictly_ascending(r),
        forall|k: int| 0 <= k < matching.len() ==> #[trigger] matching[k] < index.buckets@.len()
            && has_prefix(lower(index.bucket_text(table, matching[k] as int)), q),
        forall|b: int|
            0 <= b < index.buckets@.len() && has_prefix(lower(#[trigger] index.bucket_text(table, b)), q)
                ==> matching.contains(b as usize),
        match exact {
            Some(e) => e < index.buckets@.len() && lower(index.bucket_text(table, e as int)) == q
                && r == slice_of(index.ids@, index.buckets@[e as int]),
            None => (forall|x: int| 0 <= x < matching.len() ==> lower(index.bucket_text(table, #[trigger] matching[x] as int)) != q)
                && forall|id: EntryId| #[trigger] r.contains(id) <==> exists|k: int|
                    0 <= k < matching.len() && slice_of(index.ids@, index.buckets@[#[trigger] matching[k] as int]).contains(id),
        },
    ensures
        lists_exactly(r, table@.len(), |i: nat| precise_segment_match(table@, i as int, q)),
{
    lemma_lower_idempotent(q);
    let any_equal = exists|j: int| 0 <= j < table@.len() && has_segment_equal(#[trigger] table@[j], q);
    match exact {
        Some(e) => {
            assert(index.bucket_ok(table, e as int));
            let t = index.bucket_text(table, e as int);
            let (j, kk) = choose|j: int, k: int| 0 <= j < table@.len() && 0 <= k < indexed_segments(table@[j]).len()
                && #[trigger] indexed_segments(table@[j])[k] == t;
            assert(lower(indexed_segments(table@[j])[kk]) == lower(q));
            assert(has_segment_equal(table@[j], q));
            assert(any_equal);
            assert forall|id: EntryId| #[trigger] r.contains(id) <==> (id.value() < table@.len()
                && precise_segment_match(table@, id.value() as int, q)) by {
                if r.contains(id) {
                    assert(id.value() < table@.len() && has_segment_equal(table@[id.value() as int], t));
                    let k2 = choose|k: int| 0 <= k < indexed_segments(table@[id.value() as int]).len()
                        && lower(#[trigger] indexed_segments(table@[id.value() as int])[k]) == lower(t);
                }
                if id.value() < table@.len() && precise_segment_match(table@, id.value() as int, q) {
                    let i = id.value();
                    assert(has_segment_equal(table@[i as int], q));
                    let k2 = choose|k: int| 0 <= k < indexed_segments(table@[i as int]).len()
                        && lower(#[trigger] indexed_segments(table@[i as int])[k]) == lower(q);
                    let seg = indexed_segments(table@[i as int])[k2];
                    assert(index.segment_bucketed(table, i, seg));
                    let b = choose|b: int|
                        0 <= b < index.buckets@.len() && lower(index.bucket_text(table, b)) == lower(seg)
                            && #[trigger] slice_of(index.ids@, index.buckets@[b]).contains(id_with_value(i));
                    if b != e as int {
                        if b < e {
                            assert(seq_lt(lower(index.bucket_text(table, b)), lower(index.bucket_text(table, e as int))));
                        } else {
                            assert(seq_lt(lower(index.bucket_text(table, e as int)), lower(index.bucket_text(table, b))));
                        }
                        lemma_seq_lt_irreflexive(q);
                    }
                    assert(id_with_value(i) == id);
                }
            }
        },
        None => {
            if any_equal {
                {
                    let j = choose|j: int| 0 <= j < table@.len() && has_segment_equal(#[trigger] table@[j], q);
                    let k2 = choose|k: int| 0 <= k < indexed_segments(table@[j]).len()
                        && lower(#[trigger] indexed_segments(table@[j])[k]) == lower(q);
                    let seg = indexed_segments(table@[j])[k2];
                    assert(index.segment_bucketed(table, j as nat, seg));
                    let b = choose|b: int|
                        0 <= b < index.buckets@.len() && lower(index.bucket_text(table, b)) == lower(seg)
                            && #[trigger] slice_of(index.ids@, index.buckets@[b]).contains(id_with_value(j as nat));
                    assert(has_prefix(lower(index.bucket_text(table, b)), q)) by {
                        assert(lower(index.bucket_text(table, b)).subrange(0, q.len() as int) =~= q);
                    }
                    assert(lower(index.bucket_text(table, b)) == q);
                    assert(matching.contains(b as usize));
                    let x = choose|x: int| 0 <= x < matching.len() && matching[x] == b as usize;
                    assert(matching[x] as int == b);
                    assert(lower(index.bucket_text(table, matching[x] as int)) != q);
                    assert(false);
                }
            }
            assert(!any_equal);
            assert forall|id: EntryId| #[trigger] r.contains(id) <==> (id.value() < table@.len()
                && precise_segment_match(table@, id.value() as int, q)) by {
                if r.contains(id) {
                    let k = choose|k: int| 0 <= k < matching.len() && slice_of(index.ids@, index.buckets@[#[trigger] matching[k] as int]).contains(id);
                    let b = matching[k] as int;
                    assert(index.bucket_ok(table, b));
                    let t = index.bucket_text(table, b);
                    assert(id.value() < table@.len() && has_segment_equal(table@[id.value() as int], t));
                    let k2 = choose|k: int| 0 <= k < indexed_segments(table@[id.value() as int]).len()
                        && lower(#[trigger] indexed_segments(table@[id.value() as int])[k]) == lower(t);
                    assert(has_prefix(lower(indexed_segments(table@[id.value() as int])[k2]), lower(q)));
                }
                if id.value() < table@.len() && precise_segment_match(table@, id.value() as int, q) {
                    let i = id.value();
                    assert(has_segment_prefixed(table@[i as int], q));
                    let k2 = choose|k: int| 0 <= k < indexed_segments(table@[i as int]).len()
                        && has_prefix(lower(#[trigger] indexed_segments(table@[i as int])[k]), lower(q));
                    let seg = indexed_segments(table@[i as int])[k2];
                    assert(index.segment_bucketed(table, i, seg));
                    let b = choose|b: int|
                        0 <= b < index.buckets@.len() && lower(index.bucket_text(table, b)) == lower(seg)
                            && #[trigger] slice_of(index.ids@, index.buckets@[b]).contains(id_with_value(i));
                    assert(matching.contains(b as usize));
                    let x = choose|x: int| 0 <= x < matching.len() && matching[x] == b as usize;
                    assert(matching[x] as int == b);
                    assert(id_with_value(i) == id);
                    assert(slice_of(index.ids@, index.buckets@[matching[x] as int]).contains(id));
                }
            }
        },
    }
}

impl PathSegmentIndex {
    /// `q` and bucket `b`'s text are not empty, and the text starts with the
    /// first character of `q` and holds all of `q`'s letters.
    spec fn fuzzy_bucket_selected(&self, table: &EntryTable, b: int, q: Seq<char>) -> bool {
        let t = self.bucket_text(table, b);
        &&& q.len() > 0
        &&& t.len() > 0
        &&& fuzzy_key(t) == q.take(1)
        &&& letters_cover(t, q)
    }

    /// Identifiers of entries in buckets headed by a segment text that starts
    /// with the first character of `q` (lower-cased) and holds all its letters.
    fn lookup_fuzzy(&self, table: &EntryTable, q: &[char]) -> (r: Vec<EntryId>)
        requires
            q@ == lower(q@),
        ensures
            strictly_ascending(r@),
            forall|id: EntryId| #[trigger] r@.contains(id) ==> exists|b: int|
                0 <= b < self.buckets@.len() && self.fuzzy_bucket_selected(table, b, q@) && slice_of(
                    self.ids@,
                    self.buckets@[b],
                ).contains(id),
            self.indexes(table) ==> forall|b: int, id: EntryId|
                0 <= b < self.buckets@.len() && self.fuzzy_bucket_selected(table, b, q@)
                    && #[trigger] slice_of(self.ids@, self.buckets@[b]).contains(id) ==> #[trigger] r@.contains(id),
            self.indexes(table) ==> forall|id: EntryId| #[trigger] r@.contains(id) ==> id.value() < table@.len()
                && fuzzy_segment_match(table@, id.value() as int, q@),
            self.indexes(table) ==> forall|i: nat| i < table@.len() && fuzzy_group_match(table@, i as int, q@) ==> #[trigger] lists_id(r@, i),
    {
        proof {
            use_type_invariant(self);
            use_type_invariant(table);
        }
        if q.len() == 0 {
            return Vec::new();
        }
        let key = slice_chars(q, 0, 1);
        let mask = ascii_alphabetic_mask(q);
        let candidates = self.fuzzy_buckets.matching_ids(text_fingerprint(key.as_slice()));
        let mut chosen: Vec<usize> = Vec::new();
        let mut k: usize = 0;
        while k < candidates.len()
            invariant
                k <= candidates@.len(),
                q@.len() > 0,
                key@ == q@.take(1),
                mask == alpha_mask(q@),
                forall|x: int| 0 <= x < chosen@.len() ==> #[trigger] chosen@[x] < self.buckets@.len() && {
                    let t = self.bucket_text(table, chosen@[x] as int);
                    &&& t.len() > 0
                    &&& fuzzy_key(t) == q@.take(1)
                    &&& letters_cover(t, q@)
                },
                forall|y: int| 0 <= y < k && (#[trigger] candidates@[y]).value() < self.buckets@.len()
                    && self.fuzzy_bucket_selected(table, candidates@[y].value() as int, q@) ==> chosen@.contains(
                    candidates@[y].value() as usize,
                ),
            decreases candidates@.len() - k,
        {
            let b = candidates[k].as_usize();
            let ghost before = chosen@;
            let mut take = false;
            if b < self.buckets.len() {
                let text = match table.text(self.buckets[b].text) {
                    Some(t) => t,
                    None => Vec::new(),
                };
                assert(text@ == self.bucket_text(table, b as int));
                if text.len() > 0 && text[0] == q[0] {
                    let tmask = ascii_alphabetic_mask(text.as_slice());
                    proof {
                        assert(text@.take(1) =~= q@.take(1));
                    }
                    take = mask == 0 || tmask == 0 || tmask & mask == mask;
                } else {
                    proof {
                        if text@.len() > 0 {
                            assert(text@.take(1)[0] == text@[0]);
                            assert(q@.take(1)[0] == q@[0]);
                        }
                    }
                }
            }
            assert(take == (b < self.buckets@.len() && self.fuzzy_bucket_selected(table, b as int, q@)));
            if take {
                chosen.push(b);
            }
            proof {
                assert forall|y: int| 0 <= y < k + 1 && (#[trigger] candidates@[y]).value() < self.buckets@.len()
                    && self.fuzzy_bucket_selected(table, candidates@[y].value() as int, q@) implies chosen@.contains(
                    candidates@[y].value() as usize,
                ) by {
                    if y < k {
                        let x = choose|x: int| 0 <= x < before.len() && before[x] == candidates@[y].value() as usize;
                        assert(chosen@[x] == before[x]);
                    } else {
                        assert(chosen@[before.len() as int] == b);
                    }
                }
            }
            k = k + 1;
        }
        let r = self.collect_bucket_ids(&chosen);
        proof {
            assert forall|id: EntryId| #[trigger] r@.contains(id) implies exists|b: int|
                0 <= b < self.buckets@.len() && self.fuzzy_bucket_selected(table, b, q@) && slice_of(
                    self.ids@,
                    self.buckets@[b],
                ).contains(id) by {
                let x = choose|x: int| 0 <= x < chosen@.len() && slice_of(self.ids@, self.buckets@[#[trigger] chosen@[x] as int]).contains(id);
                assert(self.fuzzy_bucket_selected(table, chosen@[x] as int, q@));
            }
            if self.indexes(table) {
                assert forall|b: int, id: EntryId|
                    0 <= b < self.buckets@.len() && self.fuzzy_bucket_selected(table, b, q@)
                        && #[trigger] slice_of(self.ids@, self.buckets@[b]).contains(id) implies #[trigger] r@.contains(id) by {
                    assert(self.bucket_ok(table, b));
                    let t = self.bucket_text(table, b);
                    assert(fuzzy_key(t) == key@);
                    lemma_id_with_value(b as nat);
                    let c = id_with_value(b as nat);
                    assert(self.fuzzy_buckets.has(fingerprint(key@), c));
                    assert(candidates@.contains(c));
                    let y = choose|y: int| 0 <= y < candidates@.len() && candidates@[y] == c;
                    assert(candidates@[y].value() == b);
                    assert(chosen@.contains(b as usize));
                    let x = choose|x: int| 0 <= x < chosen@.len() && chosen@[x] == b as usize;
                    assert(slice_of(self.ids@, self.buckets@[chosen@[x] as int]).contains(id));
                }
                assert forall|i: nat| i < table@.len() && fuzzy_group_match(table@, i as int, q@) implies #[trigger] lists_id(r@, i) by {
                    let k = choose|k: int| 0 <= k < indexed_segments(table@[i as int]).len() && fuzzy_group_uniform(table@, #[trigger] indexed_segments(table@[i as int])[k], q@);
                    let seg = indexed_segments(table@[i as int])[k];
                    assert(self.segment_bucketed(table, i, seg));
                    let b = choose|b: int|
                        0 <= b < self.buckets@.len() && lower(self.bucket_text(table, b)) == lower(seg)
                            && #[trigger] slice_of(self.ids@, self.buckets@[b]).contains(id_with_value(i));
                    assert(self.bucket_ok(table, b));
                    let t = self.bucket_text(table, b);
                    let (j, kk) = choose|j: int, kk: int| 0 <= j < table@.len() && 0 <= kk < indexed_segments(table@[j]).len()
                        && #[trigger] indexed_segments(table@[j])[kk] == t;
                    assert(indexed_segments(table@[j])[kk] == t);
                    assert(self.fuzzy_bucket_selected(table, b, q@));
                    assert(r@.contains(id_with_value(i)));
                    let m = choose|m: int| 0 <= m < r@.len() && r@[m] == id_with_value(i);
                    assert(i <= u32::MAX);
                    lemma_id_with_value(i);
                    assert(r@[m].value() == i);
                }
            }
            if self.indexes(table) {
                lemma_lower_idempotent(q@);
                assert forall|id: EntryId| #[trigger] r@.contains(id) implies id.value() < table@.len()
                    && fuzzy_segment_match(table@, id.value() as int, q@) by {
                    let x = choose|x: int| 0 <= x < chosen@.len() && slice_of(self.ids@, self.buckets@[#[trigger] chosen@[x] as int]).contains(id);
                    let b = chosen@[x] as int;
                    assert(self.bucket_ok(table, b));
                    let t = self.bucket_text(table, b);
                    let (j, kk) = choose|j: int, k: int| 0 <= j < table@.len() && 0 <= k < indexed_segments(table@[j]).len()
                        && #[trigger] indexed_segments(table@[j])[k] == t;
                    let k2 = choose|k: int| 0 <= k < indexed_segments(table@[id.value() as int]).len()
                        && lower(#[trigger] indexed_segments(table@[id.value() as int])[k]) == lower(t);
                    let s = indexed_segments(table@[id.value() as int])[k2];
                    assert(fuzzy_representative(table@, s, q@)) by {
                        assert(indexed_segments(table@[j])[kk] == t);
                        assert(lower(t) == lower(s));
                    }
                }
            }
        }
        r
    }

    /// Identifiers, ascending, of entries found under a path segment: those with
    /// a segment equal to it (ignoring ASCII case), else those with a segment
    /// starting with it, else the fuzzy matches of its first character.
    pub fn lookup(&self, table: &EntryTable, segment: &str) -> (r: Vec<EntryId>)
        ensures
            strictly_ascending(r@),
            self.indexes(table) && (exists|i: int| 0 <= i < table@.len() && #[trigger] precise_segment_match(table@, i, lower(segment@)))
                ==> lists_exactly(r@, table@.len(), |i: nat| precise_segment_match(table@, i as int, lower(segment@))),
            self.indexes(table) && !(exists|i: int| 0 <= i < table@.len() && #[trigger] precise_segment_match(table@, i, lower(segment@)))
                ==> forall|id: EntryId| #[trigger] r@.contains(id) ==> id.value() < table@.len()
                && fuzzy_segment_match(table@, id.value() as int, lower(segment@)),
    {
        let raw = chars_of(segment);
        let normalized = lower_chars(raw.as_slice());
        proof {
            lemma_lower_idempotent(segment@);
        }
        let precise = self.lookup_precise(table, normalized.as_slice());
        if precise.len() > 0 {
            proof {
                if self.indexes(table) {
                    let id = precise@[0];
                    assert(precise@.contains(id));
                    assert(precise_segment_match(table@, id.value() as int, lower(segment@)));
                }
            }
            return precise;
        }
        proof {
            use_type_invariant(table);
            if self.indexes(table) {
                assert forall|i: int| 0 <= i < table@.len() implies !#[trigger] precise_segment_match(table@, i, lower(segment@)) by {
                    if precise_segment_match(table@, i, lower(segment@)) {
                        lemma_id_with_value(i as nat);
                        assert(precise@.contains(id_with_value(i as nat)));
                    }
                }
            }
        }
        self.lookup_fuzzy(table, normalized.as_slice())
    }
}

impl Clone for PathSegmentIndex {
    fn clone(&self) -> (r: Self)
        ensures
            forall|t: &EntryTable| self.indexes(t) ==> r.indexes(t),
    {
        proof {
            use_type_invariant(self);
        }
        let r = PathSegmentIndex {
            buckets: copy_vec(&self.buckets),
            ids: copy_vec(&self.ids),
            fuzzy_buckets: self.fuzzy_buckets.duplicate(),
        };
        proof {
            assert(forall|fp: u32, id: EntryId| r.fuzzy_buckets.has(fp, id) == self.fuzzy_buckets.has(fp, id));
            assert forall|t: &EntryTable| self.indexes(t) implies r.indexes(t) by {
                assert forall|b: int| 0 <= b < r.buckets@.len() implies #[trigger] r.bucket_ok(t, b) by {
                    assert(self.bucket_ok(t, b));
                    assert(r.bucket_text(t, b) == self.bucket_text(t, b));
                }
                assert forall|a: int, b: int| 0 <= a < b < r.buckets@.len() implies seq_lt(lower(#[trigger] r.bucket_text(t, a)), lower(
                    #[trigger] r.bucket_text(t, b))) by {
                    assert(r.bucket_text(t, a) == self.bucket_text(t, a));
                    assert(r.bucket_text(t, b) == self.bucket_text(t, b));
                }
                assert forall|i: nat, k: int|
                    i < t@.len() && 0 <= k < indexed_segments(t@[i as int]).len() implies #[trigger] r.segment_bucketed(
                        t, i, indexed_segments(t@[i as int])[k]) by {
                    assert(self.segment_bucketed(t, i, indexed_segments(t@[i as int])[k]));
                    let b = choose|b: int|
                        0 <= b < self.buckets@.len() && lower(self.bucket_text(t, b)) == lower(indexed_segments(t@[i as int])[k])
                            && #[trigger] slice_of(self.ids@, self.buckets@[b]).contains(id_with_value(i));
                    assert(r.bucket_text(t, b) == self.bucket_text(t, b));
                    assert(slice_of(r.ids@, r.buckets@[b]).contains(id_with_value(i)));
                }
            }
        }
        r
    }
}

impl Default for PathSegmentIndex {
    fn default() -> (r: Self)
        ensures
            forall|t: &EntryTable| t@.len() == 0 ==> r.indexes(t),
    {
        PathSegmentIndex { buckets: Vec::new(), ids: Vec::new(), fuzzy_buckets: FingerprintIndex::empty() }
    }
}

// ---------------------------------------------------------------------------
// The candidate index
// ---------------------------------------------------------------------------

/// What a table keeps of each input entry.
pub open spec fn stored_models(entries: Seq<IndexedEntry>) -> Seq<EntryModel> {
    Seq::new(entries.len(), |i: int| stored_model(entries[i]))
}

/// Inputs on which building a candidate index cannot fail: those of the table,
/// with names and paths short enough for the n-gram and segment postings.
pub open spec fn candidate_build_fits(entries: Seq<IndexedEntry>, arena_limit: usize) -> bool {
    &&& build_fits(entries, arena_limit)
    &&& 15 * names_len(stored_models(entries)) <= u32::MAX
    &&& paths_len(stored_models(entries)) < u32::MAX - 1
}

/// What building a candidate index from `entries` yields.
pub open spec fn candidate_build_outcome(
    entries: Seq<IndexedEntry>,
    arena_limit: usize,
    r: Result<Seq<EntryModel>, CompactIndexBuildError>,
) -> bool {
    &&& match r {
        Ok(models) => models == stored_models(entries),
        Err(CompactIndexBuildError::TooManyNameNgramBytes { count }) => count > u32::MAX && 15 * names_len(
            stored_models(entries),
        ) > u32::MAX,
        Err(CompactIndexBuildError::TooManySegmentPostings { count }) => count >= u32::MAX - 1 && paths_len(
            stored_models(entries),
        ) >= u32::MAX - 1,
        Err(CompactIndexBuildError::TooManyPathSegmentBuckets { count }) => count > u32::MAX && paths_len(
            stored_models(entries),
        ) >= u32::MAX - 1,
        Err(e) => table_build_outcome(entries, arena_limit, Err(e)),
    }
    &&& candidate_build_fits(entries, arena_limit) ==> r is Ok
}

/// An entry table with the indexes that narrow queries down to candidates.
pub struct CompactCandidateIndex {
    table: EntryTable,
    name_ngrams: NameNgramIndex,
    extensions: ExtensionIndex,
    path_segments: PathSegmentIndex,
    exact_paths: ExactPathIndex,
}

#[derive(Debug, Clone, Copy, PartialEq, Eq, Structural)]
pub struct CandidateRetrievalStats {
    pub indexed_entry_count: usize,
    pub candidate_count: usize,
    pub used_full_scan: bool,
}

#[derive(Debug, Clone, PartialEq, Eq)]
pub struct CandidateRetrieval {
    pub candidates: Vec<EntryId>,
    pub stats: CandidateRetrievalStats,
}

#[derive(Debug, Clone, Copy, PartialEq, Eq, Structural)]
pub struct CompactCandidateMemoryStats {
    pub entry_count: usize,
    pub prefix_key_count: usize,
    pub retained_build_interner_bytes: usize,
    pub entry_table_heap_bytes: usize,
    pub name_ngram_bytes: usize,
    pub extension_bytes: usize,
    pub path_segment_bytes: usize,
    pub path_fuzzy_bytes: usize,
    pub exact_path_bytes: usize,
    pub heap_bytes: usize,
    pub total_resident_bytes: usize,
}

pub open spec fn candidate_result_view(r: Result<CompactCandidateIndex, CompactIndexBuildError>) -> Result<
    Seq<EntryModel>,
    CompactIndexBuildError,
> {
    match r {
        Ok(t) => Ok(t@),
        Err(e) => Err(e),
    }
}

impl CompactCandidateIndex {
    #[verifier::type_invariant]
    spec fn inv(&self) -> bool {
        &&& self.name_ngrams.indexes(&self.table)
        &&& self.extensions.indexes(&self.table)
        &&& self.path_segments.indexes(&self.table)
        &&& self.exact_paths.indexes(&self.table)
    }
}

impl View for CompactCandidateIndex {
    type V = Seq<EntryModel>;

    closed spec fn view(&self) -> Seq<EntryModel> {
        self.table@
    }
}

impl CompactCandidateIndex {
    /// Builds an index; panics where `try_from_entries` would fail.
    pub fn from_entries(entries: Vec<IndexedEntry>) -> (r: Self)
        requires
            candidate_build_fits(entries@, (u32::MAX - 1) as usize),
        ensures
            r@ == stored_models(entries@),
    {
        match Self::try_from_entries(entries) {
            Ok(index) => index,
            Err(_) => {
                assert(false);
                CompactCandidateIndex::default()
            },
        }
    }

    pub fn try_from_entries(entries: Vec<IndexedEntry>) -> (r: Result<Self, CompactIndexBuildError>)
        ensures
            candidate_build_outcome(entries@, (u32::MAX - 1) as usize, candidate_result_view(r)),
    {
        Self::try_from_entries_with_arena_limit(entries, (MISSING_RANGE_START - 1) as usize)
    }

    pub fn try_from_entries_with_arena_limit(entries: Vec<IndexedEntry>, arena_limit: usize) -> (r: Result<
        Self,
        CompactIndexBuildError,
    >)
        ensures
            candidate_build_outcome(entries@, arena_limit, candidate_result_view(r)),
    {
        let ghost input = entries@;
        let table = match EntryTable::try_from_entries_with_arena_limit(entries, arena_limit) {
            Ok(t) => t,
            Err(e) => return Err(e),
        };
        proof {
            assert(table@ =~= stored_models(input));
        }
        let name_ngrams = match NameNgramIndex::build(&table) {
            Ok(ix) => ix,
            Err(e) => return Err(e),
        };
        let extensions = ExtensionIndex::build(&table);
        let path_segments = match PathSegmentIndex::build(&table) {
            Ok(ix) => ix,
            Err(e) => return Err(e),
        };
        let exact_paths = ExactPathIndex::build(&table);
        Ok(CompactCandidateIndex { table, name_ngrams, extensions, path_segments, exact_paths })
    }

    pub fn entry_count(&self) -> (r: usize)
        ensures
            r == self@.len(),
    {
        self.table.len()
    }

    /// Identifiers, ascending, of the entries whose path equals `path` up to ASCII case.
    pub fn path_ids(&self, path: &str) -> (r: Vec<EntryId>)
        ensures
            lists_exactly(r@, self@.len(), |i: nat| lower(self@[i as int].path) == lower(path@)),
    {
        proof {
            use_type_invariant(self);
        }
        self.exact_paths.lookup(&self.table, path)
    }

    pub fn is_empty(&self) -> (r: bool)
        ensures
            r == (self@.len() == 0),
    {
        self.table.is_empty()
    }

    /// The entry with identifier `id`, as a plain entry again.
    pub fn materialize(&self, id: EntryId) -> (r: Option<IndexedEntry>)
        ensures
            match r {
                Some(m) => id.value() < self@.len() && entry_view(m) == self@[id.value() as int],
                None => id.value() >= self@.len(),
            },
    {
        self.table.materialize(id)
    }

    /// The entry with identifier `id` together with the index's strings.
    pub fn entry_ref(&self, id: EntryId) -> (r: Option<CompactEntryRef<'_>>)
        ensures
            match r {
                Some(e) => id.value() < self@.len() && e.model() == self@[id.value() as int],
                None => id.value() >= self@.len(),
            },
    {
        match self.table.get(id) {
            Some(entry) => Some(CompactEntryRef { table: &self.table, entry }),
            None => None,
        }
    }

    /// Every identifier, ascending.
    pub fn entry_ids(&self) -> (r: Vec<EntryId>)
        ensures
            r@.len() == self@.len(),
            forall|i: int| 0 <= i < r@.len() ==> #[trigger] r@[i].value() == i,
    {
        self.table.all_ids()
    }

    /// Every entry, as plain entries, in identifier order.
    pub fn materialized_entries(&self) -> (r: Vec<IndexedEntry>)
        ensures
            r@.len() == self@.len(),
            forall|i: int| 0 <= i < r@.len() ==> entry_view(#[trigger] r@[i]) == self@[i],
    {
        let ids = self.table.all_ids();
        let mut out: Vec<IndexedEntry> = Vec::new();
        let mut i: usize = 0;
        while i < ids.len()
            invariant
                i <= ids@.len(),
                ids@.len() == self@.len(),
                forall|k: int| 0 <= k < ids@.len() ==> #[trigger] ids@[k].value() == k,
                out@.len() == i,
                forall|k: int| 0 <= k < i ==> entry_view(#[trigger] out@[k]) == self@[k],
            decreases ids@.len() - i,
        {
            match self.table.materialize(ids[i]) {
                Some(m) => out.push(m),
                None => {
                    assert(false);
                },
            }
            i = i + 1;
        }
        out
    }
}

impl Clone for CompactCandidateIndex {
    fn clone(&self) -> (r: Self)
        ensures
            r@ == self@,
    {
        proof {
            use_type_invariant(self);
        }
        let table = self.table.clone();
        let name_ngrams = self.name_ngrams.clone();
        let extensions = self.extensions.clone();
        let path_segments = self.path_segments.clone();
        let exact_paths = self.exact_paths.clone();
        proof {
            lemma_same_table_indexes(&self.table, &table, &name_ngrams, &extensions, &path_segments, &exact_paths);
        }
        CompactCandidateIndex { table, name_ngrams, extensions, path_segments, exact_paths }
    }
}

/// Index relations depend only on a table's view and arena.
proof fn lemma_same_table_indexes(
    a: &EntryTable,
    b: &EntryTable,
    n: &NameNgramIndex,
    e: &ExtensionIndex,
    p: &PathSegmentIndex,
    x: &ExactPathIndex,
)
    requires
        a@ == b@,
        a.arena_view() == b.arena_view(),
        n.indexes(a),
        e.indexes(a),
        p.indexes(a),
        x.indexes(a),
    ensures
        n.indexes(b),
        e.indexes(b),
        p.indexes(b),
        x.indexes(b),
{
    assert forall|bb: int| 0 <= bb < p.buckets@.len() implies #[trigger] p.bucket_ok(b, bb) by {
        assert(p.bucket_ok(a, bb));
        assert(p.bucket_text(a, bb) == p.bucket_text(b, bb));
    }
    assert forall|i: int, j: int| 0 <= i < j < p.buckets@.len() implies seq_lt(lower(#[trigger] p.bucket_text(b, i)), lower(
        #[trigger] p.bucket_text(b, j))) by {
        assert(p.bucket_text(a, i) == p.bucket_text(b, i));
        assert(p.bucket_text(a, j) == p.bucket_text(b, j));
    }
    assert forall|i: nat, k: int|
        i < b@.len() && 0 <= k < indexed_segments(b@[i as int]).len() implies #[trigger] p.segment_bucketed(
            b, i, indexed_segments(b@[i as int])[k]) by {
        assert(p.segment_bucketed(a, i, indexed_segments(a@[i as int])[k]));
        let bb = choose|bb: int|
            0 <= bb < p.buckets@.len() && lower(p.bucket_text(a, bb)) == lower(indexed_segments(a@[i as int])[k])
                && #[trigger] slice_of(p.ids@, p.buckets@[bb]).contains(id_with_value(i));
        assert(p.bucket_text(a, bb) == p.bucket_text(b, bb));
    }
}

impl Default for CompactCandidateIndex {
    fn default() -> (r: Self)
        ensures
            r@.len() == 0,
    {
        let table = EntryTable::default();
        CompactCandidateIndex {
            name_ngrams: NameNgramIndex::default(),
            extensions: ExtensionIndex::default(),
            path_segments: PathSegmentIndex::default(),
            exact_paths: ExactPathIndex::default(),
            table,
        }
    }
}

// ---------------------------------------------------------------------------
// Retrieval
// ---------------------------------------------------------------------------

pub open spec fn has_path_separator(s: Seq<char>) -> bool {
    s.contains('/') || s.contains('\\')
}

pub open spec fn has_glob(s: Seq<char>) -> bool {
    s.contains('*') || s.contains('?') || s.contains('[')
}

/// `s` lists an identifier with value `i`.
pub open spec fn lists_id(s: Seq<EntryId>, i: nat) -> bool {
    exists|k: int| 0 <= k < s.len() && (#[trigger] s[k]).value() == i
}

pub open spec fn exact_path_match(m: EntryModel, q: Seq<char>) -> bool {
    lower(m.path) == lower(q)
}

pub open spec fn any_exact_path(models: Seq<EntryModel>, q: Seq<char>) -> bool {
    exists|j: int| 0 <= j < models.len() && exact_path_match(#[trigger] models[j], q)
}

pub open spec fn ngram_match(m: EntryModel, q: Seq<char>) -> bool {
    q.len() > 0 && contains_seq(lower(m.name), query_ngram(q))
}

pub open spec fn any_precise_segment(models: Seq<EntryModel>, q: Seq<char>) -> bool {
    exists|j: int| 0 <= j < models.len() && #[trigger] precise_segment_match(models, j, q)
}

/// An ordinary term lets entry `i` through: with a path separator, its path
/// when some path equals the term; else a name window, a path segment or a
/// fuzzy segment match.
pub open spec fn term_sound(models: Seq<EntryModel>, i: int, term: Seq<char>) -> bool {
    let q = lower(term);
    if has_path_separator(q) {
        any_exact_path(models, q) ==> exact_path_match(models[i], q)
    } else {
        ngram_match(models[i], q) || precise_segment_match(models, i, q) || fuzzy_segment_match(models, i, q)
    }
}

/// The entries an ordinary term is sure to let through.
pub open spec fn term_complete(models: Seq<EntryModel>, i: int, term: Seq<char>) -> bool {
    let q = lower(term);
    if has_path_separator(q) {
        any_exact_path(models, q) ==> exact_path_match(models[i], q)
    } else {
        ngram_match(models[i], q) || precise_segment_match(models, i, q) || fuzzy_group_match(models, i, q)
    }
}

/// A term with a path separator that no path equals scans everything.
pub open spec fn term_full_scan(models: Seq<EntryModel>, term: Seq<char>) -> bool {
    has_path_separator(lower(term)) && !any_exact_path(models, lower(term))
}

pub open spec fn type_match(m: EntryModel, filter: Seq<char>) -> bool {
    extension_matches(candidate_extension(m), extension_query(filter))
}

pub open spec fn name_filter_match(m: EntryModel, filter: Seq<char>) -> bool {
    filter.len() > 0 && contains_seq(lower(m.name), lower(filter))
}

pub open spec fn dir_sound(models: Seq<EntryModel>, i: int, dir: Seq<char>) -> bool {
    has_glob(dir) || if any_precise_segment(models, lower(dir)) {
        precise_segment_match(models, i, lower(dir))
    } else {
        fuzzy_segment_match(models, i, lower(dir))
    }
}

pub open spec fn dir_complete(models: Seq<EntryModel>, i: int, dir: Seq<char>) -> bool {
    has_glob(dir) || (any_precise_segment(models, lower(dir)) && precise_segment_match(models, i, lower(dir)))
}

/// Entry `i` passes the first `nt` terms, `ny` type, `nn` name and `nd` dir
/// filters by the sound predicates.
pub open spec fn query_sound_upto(
    models: Seq<EntryModel>,
    i: int,
    q: QueryModel,
    nt: int,
    ny: int,
    nn: int,
    nd: int,
) -> bool {
    &&& forall|k: int| 0 <= k < nt ==> term_sound(models, i, #[trigger] q.ordinary_terms[k])
    &&& forall|k: int| 0 <= k < ny ==> type_match(models[i], #[trigger] q.type_filters[k])
    &&& forall|k: int| 0 <= k < nn ==> name_filter_match(models[i], #[trigger] q.name_filters[k])
    &&& forall|k: int| 0 <= k < nd ==> dir_sound(models, i, #[trigger] q.dir_filters[k])
}

pub open spec fn query_complete_upto(
    models: Seq<EntryModel>,
    i: int,
    q: QueryModel,
    nt: int,
    ny: int,
    nn: int,
    nd: int,
) -> bool {
    &&& forall|k: int| 0 <= k < nt ==> term_complete(models, i, #[trigger] q.ordinary_terms[k])
    &&& forall|k: int| 0 <= k < ny ==> type_match(models[i], #[trigger] q.type_filters[k])
    &&& forall|k: int| 0 <= k < nn ==> name_filter_match(models[i], #[trigger] q.name_filters[k])
    &&& forall|k: int| 0 <= k < nd ==> dir_complete(models, i, #[trigger] q.dir_filters[k])
}

pub open spec fn query_sound(models: Seq<EntryModel>, i: int, q: QueryModel) -> bool {
    query_sound_upto(models, i, q, q.ordinary_terms.len() as int, q.type_filters.len() as int, q.name_filters.len() as int, q.dir_filters.len() as int)
}

pub open spec fn query_complete(models: Seq<EntryModel>, i: int, q: QueryModel) -> bool {
    query_complete_upto(models, i, q, q.ordinary_terms.len() as int, q.type_filters.len() as int, q.name_filters.len() as int, q.dir_filters.len() as int)
}

pub open spec fn query_has_filters(q: QueryModel) -> bool {
    q.ordinary_terms.len() > 0 || q.type_filters.len() > 0 || q.name_filters.len() > 0 || q.dir_filters.len() > 0
}

pub open spec fn query_full_scan(models: Seq<EntryModel>, q: QueryModel) -> bool {
    (exists|k: int| 0 <= k < q.ordinary_terms.len() && term_full_scan(models, #[trigger] q.ordinary_terms[k]))
        || (exists|k: int| 0 <= k < q.dir_filters.len() && has_glob(#[trigger] q.dir_filters[k]))
}

proof fn lemma_listed_id(s: Seq<EntryId>, i: nat)
    requires
        i <= u32::MAX,
    ensures
        lists_id(s, i) <==> s.contains(id_with_value(i)),
{
    if lists_id(s, i) {
        let k = choose|k: int| 0 <= k < s.len() && (#[trigger] s[k]).value() == i;
        lemma_entry_id_value_injective(s[k], id_with_value(i));
    }
    if s.contains(id_with_value(i)) {
        let k = choose|k: int| 0 <= k < s.len() && s[k] == id_with_value(i);
        assert(s[k].value() == i);
    }
}

proof fn lemma_all_ids_ascending(s: Seq<EntryId>)
    requires
        forall|i: int| 0 <= i < s.len() ==> #[trigger] s[i].value() == i,
    ensures
        strictly_ascending(s),
{
}

/// Narrows the candidates so far (none: no filter yet) by one more list.
fn intersect_optional_candidates(current: Option<Vec<EntryId>>, next: Vec<EntryId>) -> (r: Option<Vec<EntryId>>)
    requires
        current matches Some(c) ==> strictly_ascending(c@),
        strictly_ascending(next@),
    ensures
        r matches Some(v) && strictly_ascending(v@) && match current {
            Some(c) => forall|id: EntryId| #[trigger] v@.contains(id) <==> c@.contains(id) && next@.contains(id),
            None => v@ == next@,
        },
{
    match current {
        Some(c) => Some(intersect_sorted_ids(c, next)),
        None => Some(next),
    }
}

impl CompactCandidateIndex {
    /// Candidates for one ordinary term.
    pub fn retrieve_ordinary_term(&self, term: &str) -> (r: CandidateRetrieval)
        ensures
            r.stats.indexed_entry_count == self@.len(),
            r.stats.candidate_count == r.candidates@.len(),
            strictly_ascending(r.candidates@),
            r.stats.used_full_scan == term_full_scan(self@, term@),
            forall|id: EntryId| #[trigger] r.candidates@.contains(id) ==> id.value() < self@.len() && term_sound(
                self@,
                id.value() as int,
                term@,
            ),
            forall|i: nat| i < self@.len() && term_complete(self@, i as int, term@) ==> #[trigger] lists_id(r.candidates@, i),
    {
        proof {
            use_type_invariant(self);
            use_type_invariant(&self.table);
        }
        let normalized = ascii_lowercase(term);
        let chars = chars_of(normalized.as_str());
        let ghost q = lower(term@);
        proof {
            lemma_lower_idempotent(term@);
        }
        let separated = has_char(chars.as_slice(), '/') || has_char(chars.as_slice(), '\\');
        if separated {
            let exact = self.exact_paths.lookup(&self.table, normalized.as_str());
            if exact.len() == 0 {
                proof {
                    assert(!any_exact_path(self@, q)) by {
                        if any_exact_path(self@, q) {
                            let j = choose|j: int| 0 <= j < self@.len() && exact_path_match(#[trigger] self@[j], q);
                            lemma_id_with_value(j as nat);
                            assert(exact@.contains(id_with_value(j as nat)));
                        }
                    }
                }
                let all = self.table.all_ids();
                proof {
                    lemma_all_ids_ascending(all@);
                    assert forall|i: nat| i < self@.len() implies #[trigger] lists_id(all@, i) by {
                        assert(all@[i as int].value() == i);
                    }
                }
                return self.retrieval(all, true);
            }
            proof {
                let id = exact@[0];
                assert(exact@.contains(id));
                assert(exact_path_match(self@[id.value() as int], q));
                assert forall|i: nat| i < self@.len() && term_complete(self@, i as int, term@) implies #[trigger] lists_id(exact@, i) by {
                    lemma_id_with_value(i);
                    lemma_listed_id(exact@, i);
                }
            }
            return self.retrieval(exact, false);
        }
        let names = self.name_ngrams.lookup(&self.table, normalized.as_str());
        let paths = self.path_segments.lookup_precise(&self.table, chars.as_slice());
        let precise = union_sorted_ids(names, paths);
        if precise.len() > 0 {
            let fuzzy = self.path_segments.lookup_fuzzy(&self.table, chars.as_slice());
            let all = union_sorted_ids(precise, fuzzy);
            proof {
                assert forall|i: nat| i < self@.len() && term_complete(self@, i as int, term@) implies #[trigger] lists_id(all@, i) by {
                    lemma_id_with_value(i);
                    if ngram_match(self@[i as int], q) {
                        assert(names@.contains(id_with_value(i)));
                        assert(precise@.contains(id_with_value(i)));
                    } else if precise_segment_match(self@, i as int, q) {
                        assert(paths@.contains(id_with_value(i)));
                        assert(precise@.contains(id_with_value(i)));
                    } else {
                        assert(lists_id(fuzzy@, i));
                        lemma_listed_id(fuzzy@, i);
                    }
                    lemma_listed_id(all@, i);
                }
            }
            return self.retrieval(all, false);
        }
        proof {
            assert forall|i: nat| i < self@.len() implies !(ngram_match(self@[i as int], q) || precise_segment_match(self@, i as int, q)) by {
                lemma_id_with_value(i);
                if ngram_match(self@[i as int], q) {
                    assert(names@.contains(id_with_value(i)));
                    assert(precise@.contains(id_with_value(i)));
                }
                if precise_segment_match(self@, i as int, q) {
                    assert(paths@.contains(id_with_value(i)));
                    assert(precise@.contains(id_with_value(i)));
                }
            }
        }
        let fuzzy = self.path_segments.lookup_fuzzy(&self.table, chars.as_slice());
        proof {
            assert forall|i: nat| i < self@.len() && term_complete(self@, i as int, term@) implies #[trigger] lists_id(fuzzy@, i) by {
                assert(fuzzy_group_match(self@, i as int, q));
            }
        }
        self.retrieval(fuzzy, false)
    }

    fn retrieval(&self, candidates: Vec<EntryId>, used_full_scan: bool) -> (r: CandidateRetrieval)
        ensures
            r.candidates == candidates,
            r.stats.indexed_entry_count == self@.len(),
            r.stats.candidate_count == candidates@.len(),
            r.stats.used_full_scan == used_full_scan,
    {
        let candidate_count = candidates.len();
        CandidateRetrieval {
            stats: CandidateRetrievalStats { indexed_entry_count: self.table.len(), candidate_count, used_full_scan },
            candidates,
        }
    }
}

/// Candidates so far: none before the first filter, else an ascending list of
/// entries passing the filters' sound predicates that holds every entry passing
/// their complete ones.
spec fn candidates_state(
    n: nat,
    cands: Option<Seq<EntryId>>,
    sound: spec_fn(nat) -> bool,
    complete: spec_fn(nat) -> bool,
) -> bool {
    match cands {
        Some(c) => {
            &&& strictly_ascending(c)
            &&& forall|id: EntryId| #[trigger] c.contains(id) ==> id.value() < n && sound(id.value())
            &&& forall|i: nat| i < n && complete(i) ==> #[trigger] c.contains(id_with_value(i))
        },
        None => forall|i: nat| #[trigger] sound(i) && complete(i),
    }
}

spec fn opt_view_ids(o: Option<Vec<EntryId>>) -> Option<Seq<EntryId>> {
    match o {
        Some(v) => Some(v@),
        None => None,
    }
}

/// Narrowing by one more filter conjoins its predicates.
proof fn lemma_narrow(
    n: nat,
    cur: Option<Seq<EntryId>>,
    next: Seq<EntryId>,
    new: Seq<EntryId>,
    sound: spec_fn(nat) -> bool,
    complete: spec_fn(nat) -> bool,
    p: spec_fn(nat) -> bool,
    q: spec_fn(nat) -> bool,
    sound2: spec_fn(nat) -> bool,
    complete2: spec_fn(nat) -> bool,
)
    requires
        n <= u32::MAX + 1,
        candidates_state(n, cur, sound, complete),
        forall|id: EntryId| #[trigger] next.contains(id) ==> id.value() < n && p(id.value()),
        forall|i: nat| i < n && q(i) ==> #[trigger] next.contains(id_with_value(i)),
        strictly_ascending(new),
        match cur {
            Some(c) => forall|id: EntryId| #[trigger] new.contains(id) <==> c.contains(id) && next.contains(id),
            None => new == next,
        },
        forall|i: nat| #[trigger] sound2(i) == (sound(i) && p(i)),
        forall|i: nat| #[trigger] complete2(i) == (complete(i) && q(i)),
    ensures
        candidates_state(n, Some(new), sound2, complete2),
{
    assert forall|id: EntryId| #[trigger] new.contains(id) implies id.value() < n && sound2(id.value()) by {
        match cur {
            Some(c) => {
                assert(c.contains(id) && next.contains(id));
            },
            None => {
                assert(next.contains(id));
                assert(sound(id.value()) && complete(id.value()));
            },
        }
    }
    assert forall|i: nat| i < n && complete2(i) implies #[trigger] new.contains(id_with_value(i)) by {
        assert(complete(i) && q(i));
        assert(next.contains(id_with_value(i)));
        match cur {
            Some(c) => {
                assert(c.contains(id_with_value(i)));
            },
            None => {},
        }
    }
}

spec fn ids_or_empty(o: Option<Seq<EntryId>>) -> Seq<EntryId> {
    match o {
        Some(v) => v,
        None => Seq::empty(),
    }
}

impl CompactCandidateIndex {
    /// Candidates for a whole query: the intersection over its terms and filters.
    pub fn retrieve_query(&self, query: &str) -> (r: CandidateRetrieval)
        ensures
            r.stats.indexed_entry_count == self@.len(),
            r.stats.candidate_count == r.candidates@.len(),
            strictly_ascending(r.candidates@),
            r.stats.used_full_scan == query_full_scan(self@, parse_spec(query@)),
            !query_has_filters(parse_spec(query@)) ==> r.candidates@.len() == 0,
            forall|id: EntryId| #[trigger] r.candidates@.contains(id) ==> id.value() < self@.len() && query_sound(
                self@,
                id.value() as int,
                parse_spec(query@),
            ),
            query_has_filters(parse_spec(query@)) ==> forall|i: nat|
                i < self@.len() && query_complete(self@, i as int, parse_spec(query@)) ==> #[trigger] lists_id(
                    r.candidates@,
                    i,
                ),
    {
        proof {
            use_type_invariant(self);
            use_type_invariant(&self.table);
        }
        let parsed = FileQuery::parse(query);
        let ghost qm = parsed.model();
        let ghost models = self@;
        let ghost n = self@.len();
        let ghost nt = qm.ordinary_terms.len() as int;
        let ghost ny = qm.type_filters.len() as int;
        let ghost nn = qm.name_filters.len() as int;
        let ghost nd = qm.dir_filters.len() as int;
        let mut candidates: Option<Vec<EntryId>> = None;
        let mut full = false;
        let mut k: usize = 0;
        while k < parsed.ordinary_terms.len()
            invariant
                k <= nt,
                qm == parsed.model(),
                nt == qm.ordinary_terms.len(),
                models == self@,
                n == models.len() <= u32::MAX,
                self.name_ngrams.indexes(&self.table),
                self.extensions.indexes(&self.table),
                self.path_segments.indexes(&self.table),
                self.exact_paths.indexes(&self.table),
                candidates is None <==> k == 0,
                candidates_state(
                    n,
                    opt_view_ids(candidates),
                    |i: nat| query_sound_upto(models, i as int, qm, k as int, 0, 0, 0),
                    |i: nat| query_complete_upto(models, i as int, qm, k as int, 0, 0, 0),
                ),
                full == exists|x: int| 0 <= x < k && term_full_scan(models, #[trigger] qm.ordinary_terms[x]),
            decreases nt - k,
        {
            let term = &parsed.ordinary_terms[k];
            let retrieval = self.retrieve_ordinary_term(term.as_str());
            let ghost cur = opt_view_ids(candidates);
            let ghost next = retrieval.candidates@;
            full = full || retrieval.stats.used_full_scan;
            candidates = intersect_optional_candidates(candidates, retrieval.candidates);
            proof {
                assert(term@ == qm.ordinary_terms[k as int]);
                assert forall|i: nat| i < n && term_complete(models, i as int, qm.ordinary_terms[k as int]) implies #[trigger] next.contains(id_with_value(i)) by {
                    lemma_id_with_value(i);
                    assert(lists_id(next, i));
                    lemma_listed_id(next, i);
                }
                lemma_narrow(
                    n,
                    cur,
                    next,
                    ids_or_empty(opt_view_ids(candidates)),
                    |i: nat| query_sound_upto(models, i as int, qm, k as int, 0, 0, 0),
                    |i: nat| query_complete_upto(models, i as int, qm, k as int, 0, 0, 0),
                    |i: nat| term_sound(models, i as int, qm.ordinary_terms[k as int]),
                    |i: nat| term_complete(models, i as int, qm.ordinary_terms[k as int]),
                    |i: nat| query_sound_upto(models, i as int, qm, k + 1, 0, 0, 0),
                    |i: nat| query_complete_upto(models, i as int, qm, k + 1, 0, 0, 0),
                );
                assert(full == exists|x: int| 0 <= x < k + 1 && term_full_scan(models, #[trigger] qm.ordinary_terms[x]));
            }
            k = k + 1;
        }
        let mut y: usize = 0;
        while y < parsed.type_filters.len()
            invariant
                y <= ny,
                qm == parsed.model(),
                nt == qm.ordinary_terms.len(),
                ny == qm.type_filters.len(),
                models == self@,
                n == models.len() <= u32::MAX,
                self.extensions.indexes(&self.table),
                candidates is None <==> nt + y == 0,
                candidates_state(
                    n,
                    opt_view_ids(candidates),
                    |i: nat| query_sound_upto(models, i as int, qm, nt, y as int, 0, 0),
                    |i: nat| query_complete_upto(models, i as int, qm, nt, y as int, 0, 0),
                ),
            decreases ny - y,
        {
            let filter = &parsed.type_filters[y];
            let next_v = self.extensions.lookup(&self.table, filter.as_str());
            let ghost cur = opt_view_ids(candidates);
            let ghost next = next_v@;
            candidates = intersect_optional_candidates(candidates, next_v);
            proof {
                assert(filter@ == qm.type_filters[y as int]);
                assert forall|i: nat| i < n && type_match(models[i as int], qm.type_filters[y as int]) implies #[trigger] next.contains(id_with_value(i)) by {
                    lemma_id_with_value(i);
                }
                lemma_narrow(
                    n,
                    cur,
                    next,
                    ids_or_empty(opt_view_ids(candidates)),
                    |i: nat| query_sound_upto(models, i as int, qm, nt, y as int, 0, 0),
                    |i: nat| query_complete_upto(models, i as int, qm, nt, y as int, 0, 0),
                    |i: nat| type_match(models[i as int], qm.type_filters[y as int]),
                    |i: nat| type_match(models[i as int], qm.type_filters[y as int]),
                    |i: nat| query_sound_upto(models, i as int, qm, nt, y + 1, 0, 0),
                    |i: nat| query_complete_upto(models, i as int, qm, nt, y + 1, 0, 0),
                );
            }
            y = y + 1;
        }
        let mut m: usize = 0;
        while m < parsed.name_filters.len()
            invariant
                m <= nn,
                qm == parsed.model(),
                nt == qm.ordinary_terms.len(),
                ny == qm.type_filters.len(),
                nn == qm.name_filters.len(),
                models == self@,
                n == models.len() <= u32::MAX,
                self.name_ngrams.indexes(&self.table),
                candidates is None <==> nt + ny + m == 0,
                candidates_state(
                    n,
                    opt_view_ids(candidates),
                    |i: nat| query_sound_upto(models, i as int, qm, nt, ny, m as int, 0),
                    |i: nat| query_complete_upto(models, i as int, qm, nt, ny, m as int, 0),
                ),
            decreases nn - m,
        {
            let filter = &parsed.name_filters[m];
            let next_v = self.name_ngrams.lookup_full(&self.table, filter.as_str());
            let ghost cur = opt_view_ids(candidates);
            let ghost next = next_v@;
            candidates = intersect_optional_candidates(candidates, next_v);
            proof {
                assert(filter@ == qm.name_filters[m as int]);
                assert forall|i: nat| i < n && name_filter_match(models[i as int], qm.name_filters[m as int]) implies #[trigger] next.contains(id_with_value(i)) by {
                    lemma_id_with_value(i);
                }
                lemma_narrow(
                    n,
                    cur,
                    next,
                    ids_or_empty(opt_view_ids(candidates)),
                    |i: nat| query_sound_upto(models, i as int, qm, nt, ny, m as int, 0),
                    |i: nat| query_complete_upto(models, i as int, qm, nt, ny, m as int, 0),
                    |i: nat| name_filter_match(models[i as int], qm.name_filters[m as int]),
                    |i: nat| name_filter_match(models[i as int], qm.name_filters[m as int]),
                    |i: nat| query_sound_upto(models, i as int, qm, nt, ny, m + 1, 0),
                    |i: nat| query_complete_upto(models, i as int, qm, nt, ny, m + 1, 0),
                );
            }
            m = m + 1;
        }
        let ghost full_terms = full;
        let mut d: usize = 0;
        while d < parsed.dir_filters.len()
            invariant
                d <= nd,
                qm == parsed.model(),
                nt == qm.ordinary_terms.len(),
                ny == qm.type_filters.len(),
                nn == qm.name_filters.len(),
                nd == qm.dir_filters.len(),
                models == self@,
                n == models.len() <= u32::MAX,
                self.path_segments.indexes(&self.table),
                candidates is None <==> nt + ny + nn + d == 0,
                candidates_state(
                    n,
                    opt_view_ids(candidates),
                    |i: nat| query_sound_upto(models, i as int, qm, nt, ny, nn, d as int),
                    |i: nat| query_complete_upto(models, i as int, qm, nt, ny, nn, d as int),
                ),
                full_terms == exists|x: int| 0 <= x < nt && term_full_scan(models, #[trigger] qm.ordinary_terms[x]),
                full == (full_terms || exists|x: int| 0 <= x < d && has_glob(#[trigger] qm.dir_filters[x])),
            decreases nd - d,
        {
            let dir = &parsed.dir_filters[d];
            let dir_chars = chars_of(dir.as_str());
            let glob = has_char(dir_chars.as_slice(), '*') || has_char(dir_chars.as_slice(), '?') || has_char(dir_chars.as_slice(), '[');
            let next_v = if glob {
                full = true;
                let all = self.table.all_ids();
                proof {
                    lemma_all_ids_ascending(all@);
                    assert forall|i: nat| i < n implies #[trigger] all@.contains(id_with_value(i)) by {
                        lemma_id_with_value(i);
                        lemma_entry_id_value_injective(all@[i as int], id_with_value(i));
                    }
                }
                all
            } else {
                self.path_segments.lookup(&self.table, dir.as_str())
            };
            let ghost cur = opt_view_ids(candidates);
            let ghost next = next_v@;
            candidates = intersect_optional_candidates(candidates, next_v);
            proof {
                assert(dir@ == qm.dir_filters[d as int]);
                assert(dir_chars@ == qm.dir_filters[d as int]);
                assert forall|id: EntryId| #[trigger] next.contains(id) implies id.value() < n && dir_sound(models, id.value() as int, qm.dir_filters[d as int]) by {
                    if glob {
                        let x = choose|x: int| 0 <= x < next.len() && next[x] == id;
                    }
                }
                assert forall|i: nat| i < n && dir_complete(models, i as int, qm.dir_filters[d as int]) implies #[trigger] next.contains(id_with_value(i)) by {
                    lemma_id_with_value(i);
                }
                lemma_narrow(
                    n,
                    cur,
                    next,
                    ids_or_empty(opt_view_ids(candidates)),
                    |i: nat| query_sound_upto(models, i as int, qm, nt, ny, nn, d as int),
                    |i: nat| query_complete_upto(models, i as int, qm, nt, ny, nn, d as int),
                    |i: nat| dir_sound(models, i as int, qm.dir_filters[d as int]),
                    |i: nat| dir_complete(models, i as int, qm.dir_filters[d as int]),
                    |i: nat| query_sound_upto(models, i as int, qm, nt, ny, nn, d + 1),
                    |i: nat| query_complete_upto(models, i as int, qm, nt, ny, nn, d + 1),
                );
                assert(full == (full_terms || exists|x: int| 0 <= x < d + 1 && has_glob(#[trigger] qm.dir_filters[x])));
            }
            d = d + 1;
        }
        let found = match candidates {
            Some(c) => c,
            None => Vec::new(),
        };
        proof {
            assert(qm == parse_spec(query@));
            if query_has_filters(qm) {
                assert forall|i: nat|
                    i < n && query_complete(models, i as int, qm) implies #[trigger] lists_id(found@, i) by {
                    lemma_id_with_value(i);
                    lemma_listed_id(found@, i);
                }
            }
        }
        self.retrieval(found, full)
    }
}

/// The name-first retrieval: one ordinary term matched by name windows only.
pub open spec fn priority_sound(models: Seq<EntryModel>, i: int, q: QueryModel) -> bool {
    &&& ngram_match(models[i], lower(q.ordinary_terms[0]))
    &&& query_sound_upto(models, i, q, 0, q.type_filters.len() as int, q.name_filters.len() as int, q.dir_filters.len() as int)
}

pub open spec fn priority_complete(models: Seq<EntryModel>, i: int, q: QueryModel) -> bool {
    &&& ngram_match(models[i], lower(q.ordinary_terms[0]))
    &&& query_complete_upto(models, i, q, 0, q.type_filters.len() as int, q.name_filters.len() as int, q.dir_filters.len() as int)
}

/// Whether the name-first retrieval applies: exactly one ordinary term, some
/// name window matching it, and no glob `dir:` filter.
pub open spec fn priority_applies(models: Seq<EntryModel>, q: QueryModel) -> bool {
    &&& q.ordinary_terms.len() == 1
    &&& exists|j: int| 0 <= j < models.len() && ngram_match(#[trigger] models[j], lower(q.ordinary_terms[0]))
    &&& forall|x: int| 0 <= x < q.dir_filters.len() ==> !has_glob(#[trigger] q.dir_filters[x])
}

impl CompactCandidateIndex {
    /// Candidates for a one-term query found by name windows alone, narrowed by
    /// its filters; none where that does not apply.
    pub fn retrieve_query_name_priority(&self, query: &str) -> (r: Option<CandidateRetrieval>)
        ensures
            r is Some <==> priority_applies(self@, parse_spec(query@)),
            r matches Some(ret) ==> {
                &&& ret.stats.indexed_entry_count == self@.len()
                &&& ret.stats.candidate_count == ret.candidates@.len()
                &&& !ret.stats.used_full_scan
                &&& strictly_ascending(ret.candidates@)
                &&& forall|id: EntryId| #[trigger] ret.candidates@.contains(id) ==> id.value() < self@.len() && priority_sound(
                    self@,
                    id.value() as int,
                    parse_spec(query@),
                )
                &&& forall|i: nat| i < self@.len() && priority_complete(self@, i as int, parse_spec(query@)) ==> #[trigger] lists_id(
                    ret.candidates@,
                    i,
                )
            },
    {
        proof {
            use_type_invariant(self);
            use_type_invariant(&self.table);
        }
        let parsed = FileQuery::parse(query);
        let ghost qm = parsed.model();
        let ghost models = self@;
        let ghost n = self@.len();
        if parsed.ordinary_terms.len() != 1 {
            return None;
        }
        let term = &parsed.ordinary_terms[0];
        let mut candidates = self.name_ngrams.lookup(&self.table, term.as_str());
        let ghost t = qm.ordinary_terms[0];
        proof {
            assert(term@ == t);
            lemma_lower_idempotent(t);
            assert(query_ngram(lower(t)) =~= query_ngram(t));
        }
        if candidates.len() == 0 {
            proof {
                assert forall|j: int| 0 <= j < models.len() implies !ngram_match(#[trigger] models[j], lower(t)) by {
                    lemma_id_with_value(j as nat);
                    if ngram_match(models[j], lower(t)) {
                        assert(candidates@.contains(id_with_value(j as nat)));
                    }
                }
            }
            return None;
        }
        proof {
            let id = candidates@[0];
            assert(candidates@.contains(id));
            assert(ngram_match(models[id.value() as int], lower(t)));
            assert forall|i: nat| i < n && ngram_match(models[i as int], lower(t)) implies #[trigger] candidates@.contains(id_with_value(i)) by {
                lemma_id_with_value(i);
            }
        }
        let ghost ny = qm.type_filters.len() as int;
        let ghost nn = qm.name_filters.len() as int;
        let ghost nd = qm.dir_filters.len() as int;
        let mut y: usize = 0;
        while y < parsed.type_filters.len()
            invariant
                y <= ny,
                qm == parsed.model(),
                ny == qm.type_filters.len(),
                qm.ordinary_terms.len() == 1,
                t == qm.ordinary_terms[0],
                models == self@,
                n == models.len() <= u32::MAX,
                self.extensions.indexes(&self.table),
                candidates_state(
                    n,
                    Some(candidates@),
                    |i: nat| ngram_match(models[i as int], lower(t)) && query_sound_upto(models, i as int, qm, 0, y as int, 0, 0),
                    |i: nat| ngram_match(models[i as int], lower(t)) && query_complete_upto(models, i as int, qm, 0, y as int, 0, 0),
                ),
            decreases ny - y,
        {
            let filter = &parsed.type_filters[y];
            let next_v = self.extensions.lookup(&self.table, filter.as_str());
            let ghost cur = candidates@;
            let ghost next = next_v@;
            candidates = intersect_sorted_ids(candidates, next_v);
            proof {
                assert(filter@ == qm.type_filters[y as int]);
                assert forall|i: nat| i < n && type_match(models[i as int], qm.type_filters[y as int]) implies #[trigger] next.contains(id_with_value(i)) by {
                    lemma_id_with_value(i);
                }
                lemma_narrow(
                    n,
                    Some(cur),
                    next,
                    candidates@,
                    |i: nat| ngram_match(models[i as int], lower(t)) && query_sound_upto(models, i as int, qm, 0, y as int, 0, 0),
                    |i: nat| ngram_match(models[i as int], lower(t)) && query_complete_upto(models, i as int, qm, 0, y as int, 0, 0),
                    |i: nat| type_match(models[i as int], qm.type_filters[y as int]),
                    |i: nat| type_match(models[i as int], qm.type_filters[y as int]),
                    |i: nat| ngram_match(models[i as int], lower(t)) && query_sound_upto(models, i as int, qm, 0, y + 1, 0, 0),
                    |i: nat| ngram_match(models[i as int], lower(t)) && query_complete_upto(models, i as int, qm, 0, y + 1, 0, 0),
                );
            }
            y = y + 1;
        }
        let mut m: usize = 0;
        while m < parsed.name_filters.len()
            invariant
                m <= nn,
                qm == parsed.model(),
                ny == qm.type_filters.len(),
                nn == qm.name_filters.len(),
                qm.ordinary_terms.len() == 1,
                t == qm.ordinary_terms[0],
                models == self@,
                n == models.len() <= u32::MAX,
                self.name_ngrams.indexes(&self.table),
                candidates_state(
                    n,
                    Some(candidates@),
                    |i: nat| ngram_match(models[i as int], lower(t)) && query_sound_upto(models, i as int, qm, 0, ny, m as int, 0),
                    |i: nat| ngram_match(models[i as int], lower(t)) && query_complete_upto(models, i as int, qm, 0, ny, m as int, 0),
                ),
            decreases nn - m,
        {
            let filter = &parsed.name_filters[m];
            let next_v = self.name_ngrams.lookup_full(&self.table, filter.as_str());
            let ghost cur = candidates@;
            let ghost next = next_v@;
            candidates = intersect_sorted_ids(candidates, next_v);
            proof {
                assert(filter@ == qm.name_filters[m as int]);
                assert forall|i: nat| i < n && name_filter_match(models[i as int], qm.name_filters[m as int]) implies #[trigger] next.contains(id_with_value(i)) by {
                    lemma_id_with_value(i);
                }
                lemma_narrow(
                    n,
                    Some(cur),
                    next,
                    candidates@,
                    |i: nat| ngram_match(models[i as int], lower(t)) && query_sound_upto(models, i as int, qm, 0, ny, m as int, 0),
                    |i: nat| ngram_match(models[i as int], lower(t)) && query_complete_upto(models, i as int, qm, 0, ny, m as int, 0),
                    |i: nat| name_filter_match(models[i as int], qm.name_filters[m as int]),
                    |i: nat| name_filter_match(models[i as int], qm.name_filters[m as int]),
                    |i: nat| ngram_match(models[i as int], lower(t)) && query_sound_upto(models, i as int, qm, 0, ny, m + 1, 0),
                    |i: nat| ngram_match(models[i as int], lower(t)) && query_complete_upto(models, i as int, qm, 0, ny, m + 1, 0),
                );
            }
            m = m + 1;
        }
        let mut d: usize = 0;
        while d < parsed.dir_filters.len()
            invariant
                d <= nd,
                qm == parsed.model(),
                ny == qm.type_filters.len(),
                nn == qm.name_filters.len(),
                nd == qm.dir_filters.len(),
                qm.ordinary_terms.len() == 1,
                t == qm.ordinary_terms[0],
                models == self@,
                n == models.len() <= u32::MAX,
                qm == parse_spec(query@),
                self.path_segments.indexes(&self.table),
                exists|j: int| 0 <= j < models.len() && ngram_match(#[trigger] models[j], lower(t)),
                forall|x: int| 0 <= x < d ==> !has_glob(#[trigger] qm.dir_filters[x]),
                candidates_state(
                    n,
                    Some(candidates@),
                    |i: nat| ngram_match(models[i as int], lower(t)) && query_sound_upto(models, i as int, qm, 0, ny, nn, d as int),
                    |i: nat| ngram_match(models[i as int], lower(t)) && query_complete_upto(models, i as int, qm, 0, ny, nn, d as int),
                ),
            decreases nd - d,
        {
            let dir = &parsed.dir_filters[d];
            let dir_chars = chars_of(dir.as_str());
            if has_char(dir_chars.as_slice(), '*') || has_char(dir_chars.as_slice(), '?') || has_char(dir_chars.as_slice(), '[') {
                proof {
                    assert(dir@ == qm.dir_filters[d as int]);
                    assert(dir_chars@ == qm.dir_filters[d as int]);
                    assert(has_glob(qm.dir_filters[d as int]));
                    assert(qm == parse_spec(query@));
                    assert(!priority_applies(models, qm));
                }
                return None;
            }
            let next_v = self.path_segments.lookup(&self.table, dir.as_str());
            let ghost cur = candidates@;
            let ghost next = next_v@;
            candidates = intersect_sorted_ids(candidates, next_v);
            proof {
                assert(dir@ == qm.dir_filters[d as int]);
                assert forall|i: nat| i < n && dir_complete(models, i as int, qm.dir_filters[d as int]) implies #[trigger] next.contains(id_with_value(i)) by {
                    lemma_id_with_value(i);
                }
                lemma_narrow(
                    n,
                    Some(cur),
                    next,
                    candidates@,
                    |i: nat| ngram_match(models[i as int], lower(t)) && query_sound_upto(models, i as int, qm, 0, ny, nn, d as int),
                    |i: nat| ngram_match(models[i as int], lower(t)) && query_complete_upto(models, i as int, qm, 0, ny, nn, d as int),
                    |i: nat| dir_sound(models, i as int, qm.dir_filters[d as int]),
                    |i: nat| dir_complete(models, i as int, qm.dir_filters[d as int]),
                    |i: nat| ngram_match(models[i as int], lower(t)) && query_sound_upto(models, i as int, qm, 0, ny, nn, d + 1),
                    |i: nat| ngram_match(models[i as int], lower(t)) && query_complete_upto(models, i as int, qm, 0, ny, nn, d + 1),
                );
                assert(!has_glob(qm.dir_filters[d as int]));
            }
            d = d + 1;
        }
        proof {
            assert(qm == parse_spec(query@));
            assert forall|i: nat| i < n && priority_complete(models, i as int, qm) implies #[trigger] lists_id(candidates@, i) by {
                lemma_id_with_value(i);
                lemma_listed_id(candidates@, i);
            }
        }
        Some(self.retrieval(candidates, false))
    }

    /// Paths of the candidates for a query, in identifier order.
    pub fn retrieve_query_paths(&self, query: &str) -> (r: Vec<String>)
        ensures
            forall|k: int| 0 <= k < r@.len() ==> sound_candidate_path(self@, parse_spec(query@), (#[trigger] r@[k])@),
            !query_has_filters(parse_spec(query@)) ==> r@.len() == 0,
            query_has_filters(parse_spec(query@)) ==> forall|i: int|
                0 <= i < self@.len() && #[trigger] query_complete(self@, i, parse_spec(query@)) ==> path_listed(r@, self@[i].path),
    {
        let retrieval = self.retrieve_query(query);
        let ghost q = parse_spec(query@);
        let mut out: Vec<String> = Vec::new();
        let mut k: usize = 0;
        while k < retrieval.candidates.len()
            invariant
                k <= retrieval.candidates@.len(),
                out@.len() == k,
                forall|id: EntryId| #[trigger] retrieval.candidates@.contains(id) ==> id.value() < self@.len(),
                forall|x: int| 0 <= x < k ==> (#[trigger] out@[x])@ == self@[retrieval.candidates@[x].value() as int].path,
            decreases retrieval.candidates@.len() - k,
        {
            let id = retrieval.candidates[k];
            proof {
                assert(retrieval.candidates@.contains(id));
            }
            match self.table.path_by_id(id) {
                Some(p) => out.push(p),
                None => {
                    assert(false);
                },
            }
            k = k + 1;
        }
        proof {
            assert forall|x: int| 0 <= x < out@.len() implies sound_candidate_path(self@, q, (#[trigger] out@[x])@) by {
                let id = retrieval.candidates@[x];
                assert(retrieval.candidates@.contains(id));
                let i = id.value() as int;
                assert(0 <= i < self@.len() && query_sound(self@, i, q) && out@[x]@ == self@[i].path);
            }
            if query_has_filters(q) {
                assert forall|i: int| 0 <= i < self@.len() && #[trigger] query_complete(self@, i, q) implies path_listed(out@, self@[i].path) by {
                    assert(lists_id(retrieval.candidates@, i as nat));
                    let x = choose|x: int| 0 <= x < retrieval.candidates@.len() && (#[trigger] retrieval.candidates@[x]).value() == i as nat;
                    assert(out@[x]@ == self@[i].path);
                }
            }
        }
        out
    }
}

/// `p` is the path of an entry that passes the query's sound predicates.
pub open spec fn sound_candidate_path(models: Seq<EntryModel>, q: QueryModel, p: Seq<char>) -> bool {
    exists|i: int| 0 <= i < models.len() && query_sound(models, i, q) && p == #[trigger] models[i].path
}

/// Some string of `r` has the characters `p`.
pub open spec fn path_listed(r: Seq<String>, p: Seq<char>) -> bool {
    exists|k: int| 0 <= k < r.len() && (#[trigger] r[k])@ == p
}

impl PathSegmentIndex {
    /// Heap bytes of the buckets and identifiers: at least their lengths times
    /// their sizes.
    fn segment_bytes(&self) -> (r: usize)
        ensures
            r >= saturate(saturate((self.buckets@.len() * size_of::<SegmentBucket>()) as int) + saturate(
                (self.ids@.len() * size_of::<EntryId>()) as int,
            )),
    {
        let bucket_capacity = vec_capacity(&self.buckets);
        let bucket_size = core::mem::size_of::<SegmentBucket>();
        let id_capacity = vec_capacity(&self.ids);
        let id_size = core::mem::size_of::<EntryId>();
        proof {
            assert(bucket_capacity * bucket_size >= self.buckets@.len() * bucket_size) by (nonlinear_arith)
                requires bucket_capacity >= self.buckets@.len();
            assert(id_capacity * id_size >= self.ids@.len() * id_size) by (nonlinear_arith)
                requires id_capacity >= self.ids@.len();
        }
        let buckets = saturating_mul(bucket_capacity, bucket_size);
        let ids = saturating_mul(id_capacity, id_size);
        buckets.saturating_add(ids)
    }
}

impl CompactCandidateIndex {
    /// Bytes of the index itself plus its heap bytes.
    pub fn estimated_bytes(&self) -> (r: usize)
        ensures
            r >= size_of::<CompactCandidateIndex>(),
            r >= saturate(size_of::<CompactCandidateIndex>() + saturate((self@.len() * size_of::<CompactEntry>()) as int)),
    {
        let stats = self.memory_stats();
        proof {
            assert(stats.heap_bytes >= stats.entry_table_heap_bytes);
        }
        core::mem::size_of::<CompactCandidateIndex>().saturating_add(stats.heap_bytes)
    }

    /// Where the index's memory goes.
    pub fn memory_stats(&self) -> (r: CompactCandidateMemoryStats)
        ensures
            r.entry_count == self@.len(),
            r.prefix_key_count == 0,
            r.retained_build_interner_bytes == 0,
            r.entry_table_heap_bytes >= saturate((self@.len() * size_of::<CompactEntry>()) as int),
            r.heap_bytes == saturate(saturate(saturate(saturate(saturate(r.entry_table_heap_bytes + r.name_ngram_bytes)
                + r.extension_bytes) + r.path_segment_bytes) + r.path_fuzzy_bytes) + r.exact_path_bytes),
            r.total_resident_bytes == saturate(size_of::<CompactCandidateIndex>() + r.heap_bytes),
    {
        let entry_table_heap_bytes = self.table.estimated_heap_bytes();
        let name_ngram_bytes = self.name_ngrams.heap_bytes();
        let extension_bytes = self.extensions.extensions.heap_bytes();
        let path_segment_bytes = self.path_segments.segment_bytes();
        let path_fuzzy_bytes = self.path_segments.fuzzy_buckets.heap_bytes();
        let exact_path_bytes = self.exact_paths.paths.heap_bytes();
        let heap_bytes = entry_table_heap_bytes.saturating_add(name_ngram_bytes).saturating_add(extension_bytes).saturating_add(
            path_segment_bytes,
        ).saturating_add(path_fuzzy_bytes).saturating_add(exact_path_bytes);
        CompactCandidateMemoryStats {
            entry_count: self.table.len(),
            prefix_key_count: 0,
            retained_build_interner_bytes: 0,
            entry_table_heap_bytes,
            name_ngram_bytes,
            extension_bytes,
            path_segment_bytes,
            path_fuzzy_bytes,
            exact_path_bytes,
            heap_bytes,
            total_resident_bytes: core::mem::size_of::<CompactCandidateIndex>().saturating_add(heap_bytes),
        }
    }
}

} // verus!
