//! Which files have their text content indexed, and how a file's bytes are
//! classified as text, binary or unsupported.

use vstd::prelude::*;
use vstd::utf8::{decode_utf8, valid_utf8};
use crate::paths::{components_of, path_components};
use crate::text::lower_chars;
use crate::text::{chars_eq, chars_of, lower};
use crate::compact_index::rfind_char;

verus! {

broadcast use vstd::string::group_string_axioms;

/// The largest file whose content is indexed by default, in bytes.
pub const DEFAULT_MAX_CONTENT_BYTES: u64 = 2097152;

/// The version directory content indexes are built under.
pub const CONTENT_INDEX_DIR_VERSION: &'static str = "content-v1";

#[derive(Debug, Clone, PartialEq, Eq)]
pub struct ContentIndexOptions {
    pub index_dir: String,
    pub max_file_bytes: u64,
}

#[derive(Debug, Clone, Copy, PartialEq, Eq, Structural)]
pub struct ContentIndexMemoryEstimate {
    pub resident_document_count: usize,
    pub resident_cached_content_bytes: usize,
}

#[derive(Debug, Clone, PartialEq, Eq)]
pub enum ContentExtractionResult {
    Text(String),
    TooLarge,
    Binary,
    UnsupportedType,
    ReadFailed,
}

/// `bytes` begins with `prefix`.
pub open spec fn bytes_start_with(bytes: Seq<u8>, prefix: Seq<u8>) -> bool {
    prefix.len() <= bytes.len() && bytes.take(prefix.len() as int) == prefix
}

/// `bytes` begins with a UTF-8, UTF-16 or UTF-32 byte order mark.
pub open spec fn has_byte_order_mark(bytes: Seq<u8>) -> bool {
    ||| bytes_start_with(bytes, seq![0xEFu8, 0xBBu8, 0xBFu8])
    ||| bytes_start_with(bytes, seq![0x00u8, 0x00u8, 0xFEu8, 0xFFu8])
    ||| bytes_start_with(bytes, seq![0xFEu8, 0xFFu8])
    ||| bytes_start_with(bytes, seq![0xFFu8, 0xFEu8])
}

/// Whether `content_inspector::inspect` classifies `bytes` as binary: no byte
/// order mark, and a NUL byte among the first 1024 bytes or a `%PDF` or PNG
/// signature at the start.
pub open spec fn inspected_binary(bytes: Seq<u8>) -> bool {
    &&& !has_byte_order_mark(bytes)
    &&& {
        ||| exists|i: int| 0 <= i < bytes.len() && i < 1024 && bytes[i] == 0u8
        ||| bytes_start_with(bytes, seq![0x25u8, 0x50u8, 0x44u8, 0x46u8])
        ||| bytes_start_with(bytes, seq![0x89u8, 0x50u8, 0x4Eu8, 0x47u8])
    }
}

/// `content_inspector::inspect(bytes).is_binary()`, as `inspected_binary`
/// states it from the crate's source: byte order marks first, then NUL bytes
/// among the first 1024 and the PDF and PNG signatures.
#[verifier::external_body]
fn inspect_is_binary(bytes: &[u8]) -> (r: bool)
    ensures
        r == inspected_binary(bytes@),
{
    content_inspector::inspect(bytes).is_binary()
}

/// `String::from_utf8`: the text the bytes encode, when they are valid UTF-8.
#[verifier::external_body]
fn utf8_text(bytes: Vec<u8>) -> (r: Option<String>)
    ensures
        match r {
            Some(s) => valid_utf8(bytes@) && s@ == decode_utf8(bytes@),
            None => !valid_utf8(bytes@),
        },
{
    String::from_utf8(bytes).ok()
}

/// The text of a path's last component, when it is a named one.
pub open spec fn last_name(path: Seq<char>) -> Option<Seq<char>> {
    let comps = path_components(path);
    if comps.len() == 0 || comps.last().len() == 0 || comps.last()[0] != '\u{4}' {
        None
    } else {
        Some(comps.last().drop_first())
    }
}

/// The extension of a name: the text after its last dot, unless that dot begins it.
pub open spec fn name_ext(name: Seq<char>) -> Option<Seq<char>> {
    match crate::compact_index::last_index_of(name, '.') {
        Some(k) => if k == 0 {
            None
        } else {
            Some(name.skip(k + 1))
        },
        None => None,
    }
}

/// The extension of a path's last named component.
pub open spec fn path_extension(path: Seq<char>) -> Option<Seq<char>> {
    match last_name(path) {
        Some(name) => name_ext(name),
        None => None,
    }
}

/// The extensions of Office and PDF documents, ASCII case ignored.
pub open spec fn is_rich_ext(e: Seq<char>) -> bool {
    let l = lower(e);
    l == "pdf"@ || l == "doc"@ || l == "docx"@ || l == "xls"@ || l == "xlsx"@ || l == "ppt"@ || l == "pptx"@
}

/// Office and PDF documents, whose text is not read as plain text.
pub open spec fn is_rich_document(path: Seq<char>) -> bool {
    match path_extension(path) {
        Some(e) => is_rich_ext(e),
        None => false,
    }
}

fn is_lit(s: &[char], lit: &str) -> (r: bool)
    ensures
        r == (s@ == lit@),
{
    let l = chars_of(lit);
    chars_eq(s, l.as_slice())
}

pub(crate) fn last_name_of(path: &str) -> (r: Option<Vec<char>>)
    ensures
        match r {
            Some(v) => last_name(path@) == Some(v@),
            None => last_name(path@) is None,
        },
{
    let comps = components_of(path);
    let n = comps.len();
    proof {
        if n > 0 {
            assert(crate::paths::comps_view(comps@).last() == comps@[n - 1]@);
        }
    }
    if n == 0 || comps[n - 1].len() == 0 || comps[n - 1][0] != '\u{4}' {
        return None;
    }
    let last = &comps[n - 1];
    let mut name: Vec<char> = Vec::new();
    let mut i: usize = 1;
    while i < last.len()
        invariant
            1 <= i <= last@.len(),
            name@ == last@.subrange(1, i as int),
        decreases last@.len() - i,
    {
        name.push(last[i]);
        proof {
            assert(last@.subrange(1, i + 1) =~= last@.subrange(1, i as int).push(last@[i as int]));
        }
        i = i + 1;
    }
    proof {
        assert(name@ =~= last@.drop_first());
    }
    Some(name)
}

pub(crate) fn name_ext_of(name: &[char]) -> (r: Option<Vec<char>>)
    ensures
        match r {
            Some(v) => name_ext(name@) == Some(v@),
            None => name_ext(name@) is None,
        },
{
    match rfind_char(name, '.') {
        Some(k) => {
            if k == 0 {
                return None;
            }
            let n = name.len();
            assert(k < n);
            let mut ext: Vec<char> = Vec::new();
            let mut j: usize = k + 1;
            while j < name.len()
                invariant
                    k + 1 <= j <= name@.len(),
                    ext@ == name@.subrange(k + 1, j as int),
                decreases name@.len() - j,
            {
                ext.push(name[j]);
                proof {
                    assert(name@.subrange(k + 1, j + 1) =~= name@.subrange(k + 1, j as int).push(name@[j as int]));
                }
                j = j + 1;
            }
            proof {
                assert(ext@ =~= name@.skip(k + 1));
            }
            Some(ext)
        },
        None => None,
    }
}

fn is_rich_ext_exec(e: &[char]) -> (r: bool)
    ensures
        r == is_rich_ext(e@),
{
    let l = lower_chars(e);
    is_lit(l.as_slice(), "pdf") || is_lit(l.as_slice(), "doc") || is_lit(l.as_slice(), "docx") || is_lit(
        l.as_slice(),
        "xls",
    ) || is_lit(l.as_slice(), "xlsx") || is_lit(l.as_slice(), "ppt") || is_lit(l.as_slice(), "pptx")
}

fn is_unsupported_rich_document(path: &str) -> (r: bool)
    ensures
        r == is_rich_document(path@),
{
    match last_name_of(path) {
        Some(name) => match name_ext_of(name.as_slice()) {
            Some(e) => is_rich_ext_exec(e.as_slice()),
            None => false,
        },
        None => false,
    }
}

/// What a file's metadata decides before it is read: a non-file or a rich
/// document is unsupported, a file over the size limit too large; otherwise the
/// file is read.
pub open spec fn metadata_verdict(is_file: bool, len: u64, max_bytes: u64, path: Seq<char>) -> Option<ContentExtractionResult> {
    if !is_file {
        Some(ContentExtractionResult::UnsupportedType)
    } else if len > max_bytes {
        Some(ContentExtractionResult::TooLarge)
    } else if is_rich_document(path) {
        Some(ContentExtractionResult::UnsupportedType)
    } else {
        None
    }
}

/// Extracts plain text from files.
#[derive(Debug, Clone, Default)]
pub struct PlainTextExtractor;

impl PlainTextExtractor {
    /// The verdict a file's metadata gives before its bytes are read; `None`
    /// means read it.
    pub fn classify_metadata(&self, is_file: bool, len: u64, max_bytes: u64, path: &str) -> (r: Option<ContentExtractionResult>)
        ensures
            r == metadata_verdict(is_file, len, max_bytes, path@),
    {
        if !is_file {
            return Some(ContentExtractionResult::UnsupportedType);
        }
        if len > max_bytes {
            return Some(ContentExtractionResult::TooLarge);
        }
        if is_unsupported_rich_document(path) {
            return Some(ContentExtractionResult::UnsupportedType);
        }
        None
    }

    /// The verdict a file's bytes give: binary as `content_inspector` judges it
    /// or when not valid UTF-8, else the text they encode.
    pub fn classify_bytes(&self, bytes: Vec<u8>) -> (r: ContentExtractionResult)
        ensures
            inspected_binary(bytes@) ==> r == ContentExtractionResult::Binary,
            !inspected_binary(bytes@) && !valid_utf8(bytes@) ==> r == ContentExtractionResult::Binary,
            !inspected_binary(bytes@) && valid_utf8(bytes@) ==> (r matches ContentExtractionResult::Text(t) && t@
                == decode_utf8(bytes@)),
    {
        if inspect_is_binary(bytes.as_slice()) {
            return ContentExtractionResult::Binary;
        }
        match utf8_text(bytes) {
            Some(text) => ContentExtractionResult::Text(text),
            None => ContentExtractionResult::Binary,
        }
    }
}

} // verus!
