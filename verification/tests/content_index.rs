use quickfox_core::content_index::{
    ContentExtractionResult, PlainTextExtractor, CONTENT_INDEX_DIR_VERSION, DEFAULT_MAX_CONTENT_BYTES,
};

#[test]
fn metadata_decides_unsupported_and_too_large_files() {
    let x = PlainTextExtractor;
    assert_eq!(
        x.classify_metadata(false, 1, 10, "/tmp/dir"),
        Some(ContentExtractionResult::UnsupportedType)
    );
    assert_eq!(
        x.classify_metadata(true, 11, 10, "/tmp/a.txt"),
        Some(ContentExtractionResult::TooLarge)
    );
    assert_eq!(
        x.classify_metadata(true, 1, 10, "/tmp/Report.PDF"),
        Some(ContentExtractionResult::UnsupportedType)
    );
    assert_eq!(
        x.classify_metadata(true, 1, 10, "/tmp/slides.pptx/"),
        Some(ContentExtractionResult::UnsupportedType)
    );
    assert_eq!(x.classify_metadata(true, 10, 10, "/tmp/.pdf"), None);
    assert_eq!(x.classify_metadata(true, 10, 10, "/tmp/notes.md"), None);
}

#[test]
fn bytes_decide_text_or_binary() {
    let x = PlainTextExtractor;
    assert_eq!(
        x.classify_bytes(b"hello".to_vec()),
        ContentExtractionResult::Text("hello".to_owned())
    );
    assert_eq!(x.classify_bytes(vec![0x61, 0x00, 0x62]), ContentExtractionResult::Binary);
    assert_eq!(x.classify_bytes(vec![0x61, 0xff, 0x62]), ContentExtractionResult::Binary);
    assert_eq!(
        x.classify_bytes("héllo".as_bytes().to_vec()),
        ContentExtractionResult::Text("héllo".to_owned())
    );
}

#[test]
fn content_defaults() {
    assert_eq!(DEFAULT_MAX_CONTENT_BYTES, 2 * 1024 * 1024);
    assert_eq!(CONTENT_INDEX_DIR_VERSION, "content-v1");
}

#[test]
fn binary_detection_follows_byte_order_marks_nul_bytes_and_signatures() {
    let x = PlainTextExtractor;
    assert_eq!(x.classify_bytes(b"%PDF-1.7 text".to_vec()), ContentExtractionResult::Binary);
    assert_eq!(x.classify_bytes(b"\x89PNG....".to_vec()), ContentExtractionResult::Binary);
    assert_eq!(x.classify_bytes(b"a\0b".to_vec()), ContentExtractionResult::Binary);
    assert_eq!(
        x.classify_bytes(b"\xEF\xBB\xBFa\0b".to_vec()),
        ContentExtractionResult::Text("\u{feff}a\0b".to_owned())
    );
    let mut late_nul = vec![b'a'; 1024];
    late_nul.push(0);
    assert!(matches!(x.classify_bytes(late_nul), ContentExtractionResult::Text(_)));
}
