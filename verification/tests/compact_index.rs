use quickfox_core::compact_index::{
    intersect_sorted_ids, CompactCandidateIndex, CompactEntry, CompactIndexBuildError, EntryId,
    EntryIdAllocator, EntryTable, ExactPathIndex, ExtensionIndex, NameNgramIndex,
    PathSegmentIndex,
};
use quickfox_core::index_entry::{build_search_text, ContentIndexState, IndexedEntry, IndexedEntryKind};

fn id(value: usize) -> EntryId {
    EntryId::from_usize(value).unwrap()
}

fn blank() -> IndexedEntry {
    IndexedEntry::legacy("", "", IndexedEntryKind::File)
}

#[test]
fn entry_id_allocator_returns_dense_stable_ids() {
    let mut allocator = EntryIdAllocator::default();

    let first = allocator.next_id();
    let second = allocator.next_id();

    assert_eq!(first.as_usize(), 0);
    assert_eq!(second.as_usize(), 1);
    assert_ne!(first, second);
    assert_eq!(allocator.len(), 2);
}

#[test]
fn entry_table_preserves_metadata_and_reconstructs_strings() {
    let entries = vec![
        IndexedEntry {
            path: "D:\\workspace\\QuickFox\\AGENTS.md".to_owned(),
            name: "AGENTS.md".to_owned(),
            kind: IndexedEntryKind::File,
            parent: "D:\\workspace\\QuickFox".to_owned(),
            extension: Some("md".to_owned()),
            depth: 3,
            root: "D:\\".to_owned(),
            modified_ms: Some(123),
            size_bytes: Some(456),
            ..blank()
        },
        IndexedEntry {
            path: "D:\\workspace\\QuickFox\\README.md".to_owned(),
            name: "README.md".to_owned(),
            kind: IndexedEntryKind::File,
            parent: "D:\\workspace\\QuickFox".to_owned(),
            extension: Some("md".to_owned()),
            depth: 3,
            root: "D:\\".to_owned(),
            modified_ms: Some(789),
            size_bytes: Some(100),
            ..blank()
        },
    ];

    let table = EntryTable::from_entries(entries);
    let first = table.get(id(0)).unwrap();
    let second = table.get(id(1)).unwrap();

    assert_eq!(table.len(), 2);
    assert_eq!(
        table.path(first).as_deref(),
        Some("D:\\workspace\\QuickFox\\AGENTS.md")
    );
    assert_eq!(table.name(first).as_deref(), Some("AGENTS.md"));
    assert_eq!(table.parent(first).as_deref(), Some("D:\\workspace\\QuickFox"));
    assert_eq!(table.extension(first).as_deref(), Some("md"));
    assert_eq!(first.kind, IndexedEntryKind::File);
    assert_eq!(first.depth, 3);
    assert_eq!(first.modified_ms, Some(123));
    assert_eq!(first.size_bytes, Some(456));
    assert_eq!(table.extension(second).as_deref(), Some("md"));
    assert!(
        table.string_pool_len() < 10,
        "shared parent/root/extension strings should be deduplicated"
    );
}

#[test]
fn packed_entry_table_round_trips_all_authoritative_entry_fields() {
    let expected = IndexedEntry {
        path: "D:\\workspace\\QuickFox\\AGENTS.md".to_owned(),
        name: "AGENTS.md".to_owned(),
        kind: IndexedEntryKind::File,
        parent: "D:\\workspace\\QuickFox".to_owned(),
        extension: Some("md".to_owned()),
        depth: 3,
        root: "D:\\".to_owned(),
        modified_ms: Some(123),
        size_bytes: Some(456),
        search_text: "custom searchable alias".to_owned(),
        content_index_state: ContentIndexState::Indexed,
    };

    let table = EntryTable::try_from_entries(vec![expected.clone()]).unwrap();

    assert_eq!(table.materialize(id(0)), Some(expected));
}

#[test]
fn packed_entry_table_reuses_path_slices_for_standard_fields() {
    let path = "D:\\workspace\\QuickFox\\AGENTS.md";
    let entry = IndexedEntry {
        path: path.to_owned(),
        name: "AGENTS.md".to_owned(),
        kind: IndexedEntryKind::File,
        parent: "D:\\workspace\\QuickFox".to_owned(),
        extension: Some("md".to_owned()),
        depth: 3,
        root: "D:\\".to_owned(),
        search_text: build_search_text("AGENTS.md", path),
        ..blank()
    };

    let table = EntryTable::try_from_entries(vec![entry]).unwrap();

    assert_eq!(table.memory_estimate().string_pool_bytes, path.len());
}

#[test]
fn packed_entry_table_stores_only_custom_search_text_as_an_exception() {
    let path = "/workspace/QuickFox/AGENTS.md";
    let custom_search_text = "agents documentation shortcut";
    let entry = IndexedEntry {
        path: path.to_owned(),
        name: "AGENTS.md".to_owned(),
        kind: IndexedEntryKind::File,
        parent: "/workspace/QuickFox".to_owned(),
        extension: Some("md".to_owned()),
        depth: 3,
        root: "/workspace".to_owned(),
        search_text: custom_search_text.to_owned(),
        ..blank()
    };

    let table = EntryTable::try_from_entries(vec![entry]).unwrap();

    assert_eq!(
        table.memory_estimate().string_pool_bytes,
        path.len() + custom_search_text.len()
    );
    assert_eq!(table.search_text(table.get(id(0)).unwrap()), custom_search_text);
}

#[test]
fn fallible_candidate_build_reports_an_arena_limit_without_panicking() {
    let error = CompactCandidateIndex::try_from_entries_with_arena_limit(
        vec![IndexedEntry::legacy(
            "/workspace/QuickFox/AGENTS.md",
            "AGENTS.md",
            IndexedEntryKind::File,
        )],
        8,
    )
    .err()
    .unwrap();

    assert!(matches!(error, CompactIndexBuildError::ArenaTooLarge { .. }));
}

#[test]
fn entry_table_memory_estimate_reports_pool_and_entry_bytes() {
    let table = EntryTable::from_entries(vec![
        IndexedEntry {
            path: "D:\\workspace\\QuickFox\\AGENTS.md".to_owned(),
            name: "AGENTS.md".to_owned(),
            kind: IndexedEntryKind::File,
            parent: "D:\\workspace\\QuickFox".to_owned(),
            extension: Some("md".to_owned()),
            depth: 3,
            root: "D:\\".to_owned(),
            ..blank()
        },
        IndexedEntry {
            path: "D:\\workspace\\QuickFox\\README.md".to_owned(),
            name: "README.md".to_owned(),
            kind: IndexedEntryKind::File,
            parent: "D:\\workspace\\QuickFox".to_owned(),
            extension: Some("md".to_owned()),
            depth: 3,
            root: "D:\\".to_owned(),
            ..blank()
        },
    ]);

    let estimate = table.memory_estimate();

    assert_eq!(estimate.entry_count, 2);
    assert_eq!(estimate.string_pool_unique_values, table.string_pool_len());
    assert!(estimate.entry_struct_bytes >= std::mem::size_of::<CompactEntry>() * 2);
    assert!(estimate.string_pool_bytes > 0);
}

#[test]
fn entry_table_does_not_retain_its_build_interner() {
    let table = EntryTable::from_entries(vec![IndexedEntry::legacy(
        "D:\\workspace\\QuickFox\\AGENTS.md",
        "AGENTS.md",
        IndexedEntryKind::File,
    )]);

    assert_eq!(table.memory_estimate().retained_build_interner_bytes, 0);
}

#[test]
fn candidate_prefix_key_growth_is_bounded_per_entry() {
    let index = CompactCandidateIndex::from_entries(vec![
        IndexedEntry::legacy(
            "D:\\workspace\\QuickFox\\docs\\AGENTS.md",
            "AGENTS.md",
            IndexedEntryKind::File,
        ),
        IndexedEntry::legacy(
            "D:\\workspace\\QuickFox\\docs\\README.md",
            "README.md",
            IndexedEntryKind::File,
        ),
    ]);
    let stats = index.memory_stats();

    assert!(
        stats.prefix_key_count <= stats.entry_count.saturating_mul(2),
        "unbounded prefix storage: {stats:#?}"
    );
}

#[test]
fn long_names_and_path_segments_do_not_create_per_character_prefix_keys() {
    let long_name_stem = "n".repeat(4 * 1024);
    let long_segment = "p".repeat(4 * 1024);
    let long_name = format!("{long_name_stem}.md");
    let long_path = format!("/workspace/{long_segment}/{long_name}");
    let index = CompactCandidateIndex::from_entries(vec![IndexedEntry::legacy(
        &long_path,
        &long_name,
        IndexedEntryKind::File,
    )]);

    let name_prefix = index.retrieve_ordinary_term(&long_name_stem[..2048]);
    let segment_prefix = index.retrieve_ordinary_term(&long_segment[..2048]);
    let stats = index.memory_stats();

    assert_eq!(name_prefix.candidates, vec![id(0)]);
    assert!(!name_prefix.stats.used_full_scan);
    assert_eq!(segment_prefix.candidates, vec![id(0)]);
    assert!(!segment_prefix.stats.used_full_scan);
    assert!(
        stats.prefix_key_count <= 4,
        "4 KiB fields must not create O(length) resident prefix keys: {stats:#?}"
    );
}

#[test]
fn compact_memory_total_counts_the_inline_struct_once() {
    let index = CompactCandidateIndex::from_entries(vec![IndexedEntry::legacy(
        "D:\\workspace\\QuickFox\\AGENTS.md",
        "AGENTS.md",
        IndexedEntryKind::File,
    )]);
    let stats = index.memory_stats();

    assert_eq!(
        stats.total_resident_bytes,
        std::mem::size_of::<CompactCandidateIndex>().saturating_add(stats.heap_bytes)
    );
}

#[test]
fn entry_table_memory_total_counts_the_inline_string_pool_once() {
    let table = EntryTable::from_entries(vec![IndexedEntry::legacy(
        "D:\\workspace\\QuickFox\\AGENTS.md",
        "AGENTS.md",
        IndexedEntryKind::File,
    )]);
    let estimate = table.memory_estimate();

    assert_eq!(
        estimate.total_resident_bytes(),
        std::mem::size_of::<EntryTable>()
            .saturating_add(estimate.entry_struct_bytes)
            .saturating_add(estimate.string_pool_heap_bytes)
    );
}

#[test]
fn name_ngram_index_retrieves_name_and_substring_candidates() {
    let table = EntryTable::from_entries(vec![
        IndexedEntry::legacy(
            "D:\\workspace\\QuickFox\\docs\\AGENTS.md",
            "AGENTS.md",
            IndexedEntryKind::File,
        ),
        IndexedEntry::legacy(
            "D:\\workspace\\QuickFox\\docs\\README.md",
            "README.md",
            IndexedEntryKind::File,
        ),
    ]);

    let ngram_index = NameNgramIndex::build(&table).unwrap();

    assert_eq!(ngram_index.lookup(&table, "agents"), vec![id(0)]);
    assert_eq!(ngram_index.lookup(&table, "agents.m"), vec![id(0)]);
    assert_eq!(ngram_index.lookup(&table, "ead"), vec![id(1)]);
}

#[test]
fn name_ngram_index_recalls_delimited_and_camel_case_substrings() {
    let table = EntryTable::from_entries(vec![
        IndexedEntry::legacy(
            "/workspace/my-report.md",
            "my-report.md",
            IndexedEntryKind::File,
        ),
        IndexedEntry::legacy(
            "/workspace/QuickFoxGuide.md",
            "QuickFoxGuide.md",
            IndexedEntryKind::File,
        ),
    ]);
    let ngram_index = NameNgramIndex::build(&table).unwrap();

    assert_eq!(ngram_index.lookup(&table, "re"), vec![id(0)]);
    assert_eq!(ngram_index.lookup(&table, "Fox"), vec![id(1)]);
}

#[test]
fn numeric_name_substrings_use_bounded_ngram_candidates() {
    let index = CompactCandidateIndex::from_entries(vec![
        IndexedEntry::legacy(
            "/workspace/file-1234.md",
            "file-1234.md",
            IndexedEntryKind::File,
        ),
        IndexedEntry::legacy("/workspace/notes.md", "notes.md", IndexedEntryKind::File),
    ]);

    let retrieval = index.retrieve_ordinary_term("123");

    assert_eq!(retrieval.candidates, vec![id(0)]);
    assert!(!retrieval.stats.used_full_scan);
}

#[test]
fn short_name_substrings_use_bounded_ngram_candidates() {
    let index = CompactCandidateIndex::from_entries(vec![
        IndexedEntry::legacy("/workspace/cmd.txt", "cmd.txt", IndexedEntryKind::File),
        IndexedEntry::legacy("/workspace/notes.md", "notes.md", IndexedEntryKind::File),
    ]);

    let retrieval = index.retrieve_ordinary_term("md");

    assert_eq!(retrieval.candidates, vec![id(0), id(1)]);
    assert!(!retrieval.stats.used_full_scan);
}

#[test]
fn name_ngram_index_retrieves_substring_candidates() {
    let table = EntryTable::from_entries(vec![
        IndexedEntry::legacy(
            "/workspace/reports/report.md",
            "report.md",
            IndexedEntryKind::File,
        ),
        IndexedEntry::legacy(
            "/workspace/reports/notes.md",
            "notes.md",
            IndexedEntryKind::File,
        ),
    ]);
    let index = NameNgramIndex::build(&table).unwrap();

    assert_eq!(index.lookup(&table, "port"), vec![id(0)]);
    assert_eq!(index.lookup(&table, "ort"), vec![id(0)]);
    assert!(index.lookup(&table, "zzzz").is_empty());
}

#[test]
fn extension_index_filters_candidates_for_type_queries() {
    let table = EntryTable::from_entries(vec![
        IndexedEntry {
            path: "/workspace/QuickFox/AGENTS.md".to_owned(),
            name: "AGENTS.md".to_owned(),
            extension: Some("md".to_owned()),
            kind: IndexedEntryKind::File,
            ..blank()
        },
        IndexedEntry {
            path: "/workspace/QuickFox/agents.txt".to_owned(),
            name: "agents.txt".to_owned(),
            extension: Some("txt".to_owned()),
            kind: IndexedEntryKind::File,
            ..blank()
        },
        IndexedEntry {
            path: "/workspace/QuickFox/README.md".to_owned(),
            name: "README.md".to_owned(),
            extension: Some("md".to_owned()),
            kind: IndexedEntryKind::File,
            ..blank()
        },
    ]);

    let extension_index = ExtensionIndex::build(&table);
    let ngram_index = NameNgramIndex::build(&table).unwrap();

    assert_eq!(extension_index.lookup(&table, "md"), vec![id(0), id(2)]);
    assert_eq!(
        intersect_sorted_ids(
            extension_index.lookup(&table, "md"),
            ngram_index.lookup(&table, "agents"),
        ),
        vec![id(0)]
    );
}

#[test]
fn path_segment_index_handles_windows_and_unix_paths() {
    let table = EntryTable::from_entries(vec![
        IndexedEntry {
            path: "D:\\workspace\\QuickFox\\docs\\AGENTS.md".to_owned(),
            name: "AGENTS.md".to_owned(),
            parent: "D:\\workspace\\QuickFox\\docs".to_owned(),
            kind: IndexedEntryKind::File,
            ..blank()
        },
        IndexedEntry {
            path: "/Users/frank/workspace/Other/notes.md".to_owned(),
            name: "notes.md".to_owned(),
            parent: "/Users/frank/workspace/Other".to_owned(),
            kind: IndexedEntryKind::File,
            ..blank()
        },
        IndexedEntry {
            path: "/Users/frank/Downloads/report.md".to_owned(),
            name: "report.md".to_owned(),
            parent: "/Users/frank/Downloads".to_owned(),
            kind: IndexedEntryKind::File,
            ..blank()
        },
    ]);

    let path_index = PathSegmentIndex::build(&table).unwrap();

    assert_eq!(path_index.lookup(&table, "workspace"), vec![id(0), id(1)]);
    assert_eq!(path_index.lookup(&table, "quickfox"), vec![id(0)]);
    assert_eq!(path_index.lookup(&table, "downloads"), vec![id(2)]);
}

#[test]
fn path_segment_fuzzy_lookup_accepts_subsequences_with_different_end_characters() {
    let table = EntryTable::from_entries(vec![IndexedEntry::legacy(
        "/workspace/QuickFox/AGENTS.md",
        "AGENTS.md",
        IndexedEntryKind::File,
    )]);
    let path_index = PathSegmentIndex::build(&table).unwrap();

    assert_eq!(path_index.lookup(&table, "wrkspc"), vec![id(0)]);
}

#[test]
fn path_segment_index_reports_posting_limit_overflow() {
    let table = EntryTable::from_entries(vec![IndexedEntry::legacy(
        "/workspace/QuickFox/docs/AGENTS.md",
        "AGENTS.md",
        IndexedEntryKind::File,
    )]);

    let error = PathSegmentIndex::build_with_limits(&table, 0, usize::MAX)
        .err()
        .unwrap();

    assert!(matches!(
        error,
        CompactIndexBuildError::TooManySegmentPostings { .. }
    ));
}

#[test]
fn compact_candidate_index_reports_bounded_low_hit_retrieval() {
    let entries: Vec<_> = (0..1_000)
        .map(|index| {
            IndexedEntry::legacy(
                &format!("/workspace/project/file-{index:04}.md"),
                &format!("file-{index:04}.md"),
                IndexedEntryKind::File,
            )
        })
        .collect();
    let index = CompactCandidateIndex::from_entries(entries);

    let low_hit = index.retrieve_ordinary_term("needle-not-present");
    let high_hit = index.retrieve_ordinary_term("file");

    assert_eq!(low_hit.candidates.len(), 0);
    assert_eq!(low_hit.stats.indexed_entry_count, 1_000);
    assert_eq!(low_hit.stats.candidate_count, 0);
    assert!(!low_hit.stats.used_full_scan);
    assert_eq!(high_hit.candidates.len(), 1_000);
    assert_eq!(high_hit.stats.candidate_count, 1_000);
    assert!(!high_hit.stats.used_full_scan);
}

#[test]
fn limited_search_can_prioritize_direct_name_candidates_over_fuzzy_path_recall() {
    let index = CompactCandidateIndex::from_entries(vec![
        IndexedEntry::legacy(
            "/workspace/agent-sources/unrelated.md",
            "unrelated.md",
            IndexedEntryKind::File,
        ),
        IndexedEntry::legacy(
            "/workspace/docs/AGENTS.md",
            "AGENTS.md",
            IndexedEntryKind::File,
        ),
    ]);

    let all_candidates = index.retrieve_query("agents");
    let direct_names = index.retrieve_query_name_priority("agents").unwrap();

    assert_eq!(all_candidates.candidates, vec![id(0), id(1)]);
    assert_eq!(direct_names.candidates, vec![id(1)]);
}

#[test]
fn compact_candidate_index_retrieves_structured_file_query_fields() {
    let index = CompactCandidateIndex::from_entries(vec![
        IndexedEntry {
            path: "/workspace/QuickFox/docs/AGENTS.md".to_owned(),
            name: "AGENTS.md".to_owned(),
            parent: "/workspace/QuickFox/docs".to_owned(),
            extension: Some("md".to_owned()),
            kind: IndexedEntryKind::File,
            ..blank()
        },
        IndexedEntry {
            path: "/workspace/QuickFox/docs/AGENTS.txt".to_owned(),
            name: "AGENTS.txt".to_owned(),
            parent: "/workspace/QuickFox/docs".to_owned(),
            extension: Some("txt".to_owned()),
            kind: IndexedEntryKind::File,
            ..blank()
        },
        IndexedEntry {
            path: "/downloads/AGENTS.md".to_owned(),
            name: "AGENTS.md".to_owned(),
            parent: "/downloads".to_owned(),
            extension: Some("md".to_owned()),
            kind: IndexedEntryKind::File,
            ..blank()
        },
    ]);

    let retrieval = index.retrieve_query("name:agents type:md dir:workspace");

    assert_eq!(retrieval.candidates, vec![id(0)]);
    assert_eq!(retrieval.stats.candidate_count, 1);
    assert!(!retrieval.stats.used_full_scan);

    let mismatched_name = index.retrieve_query("name:agents.txt type:md dir:workspace");
    assert!(mismatched_name.candidates.is_empty());
    assert!(!mismatched_name.stats.used_full_scan);
}

#[test]
fn compact_candidate_index_marks_full_scan_fallbacks_for_unsupported_narrowing() {
    let index = CompactCandidateIndex::from_entries(vec![
        IndexedEntry::legacy(
            "/Users/frank/workspace/QuickFox/budget.PDF",
            "budget.PDF",
            IndexedEntryKind::File,
        ),
        IndexedEntry::legacy(
            "/Users/frank/downloads/QuickFox/budget.PDF",
            "budget.PDF",
            IndexedEntryKind::File,
        ),
    ]);

    let glob = index.retrieve_query("dir:**/workspace/QuickFox budget");
    assert!(glob.stats.used_full_scan);
    assert_eq!(glob.stats.candidate_count, 2);

    let partial_path = index.retrieve_query("/workspace/QuickFox");
    assert!(partial_path.stats.used_full_scan);
    assert_eq!(partial_path.stats.candidate_count, 2);
}

// ---------------------------------------------------------------------------
// Further cases
// ---------------------------------------------------------------------------

#[test]
fn materialize_normalizes_empty_extension_and_search_text() {
    let input = IndexedEntry {
        path: "/a/b/c.rs".to_owned(),
        name: "c.rs".to_owned(),
        extension: Some(String::new()),
        search_text: String::new(),
        depth: 2,
        ..blank()
    };
    let table = EntryTable::from_entries(vec![input]);
    let back = table.materialize(id(0)).unwrap();

    assert_eq!(back.extension, None);
    assert_eq!(back.search_text, build_search_text("c.rs", "/a/b/c.rs"));
    assert_eq!(back.depth, 2);
    assert_eq!(table.materialize(id(1)), None);
}

#[test]
fn materialize_round_trips_normalized_non_ascii_entries() {
    let expected = IndexedEntry {
        path: "/données/Résumé.txt".to_owned(),
        name: "Résumé.txt".to_owned(),
        kind: IndexedEntryKind::File,
        parent: "/données".to_owned(),
        extension: Some("txt".to_owned()),
        depth: 2,
        root: "/".to_owned(),
        modified_ms: Some(-5),
        size_bytes: Some(0),
        search_text: "résumé".to_owned(),
        content_index_state: ContentIndexState::SkippedBinary,
    };
    let table = EntryTable::from_entries(vec![expected.clone()]);

    assert_eq!(table.materialize(id(0)), Some(expected.clone()));
    assert_eq!(
        table.memory_estimate().string_pool_bytes,
        expected.path.len() + expected.search_text.len()
    );
}

#[test]
fn depth_too_large_is_reported() {
    if usize::BITS > 32 {
        let entry = IndexedEntry {
            depth: (u32::MAX as usize) + 1,
            ..IndexedEntry::legacy("/x", "x", IndexedEntryKind::File)
        };
        let error = EntryTable::try_from_entries(vec![entry]).err().unwrap();
        assert_eq!(
            error,
            CompactIndexBuildError::DepthTooLarge {
                depth: (u32::MAX as usize) + 1
            }
        );
    }
}

#[test]
fn arena_limit_counts_utf8_bytes() {
    // "ééé" takes six bytes though it has three characters.
    let ok = CompactCandidateIndex::try_from_entries_with_arena_limit(
        vec![IndexedEntry::legacy("ééé", "ééé", IndexedEntryKind::File)],
        6,
    );
    assert!(ok.is_ok());
    let too_small = CompactCandidateIndex::try_from_entries_with_arena_limit(
        vec![IndexedEntry::legacy("ééé", "ééé", IndexedEntryKind::File)],
        5,
    );
    assert_eq!(
        too_small.err(),
        Some(CompactIndexBuildError::ArenaTooLarge { requested_bytes: 6 })
    );
}

#[test]
fn entry_id_from_usize_rejects_values_past_u32() {
    assert_eq!(EntryId::from_usize(7).map(|id| id.as_usize()), Some(7));
    if usize::BITS > 32 {
        assert!(EntryId::from_usize(u32::MAX as usize + 1).is_none());
    }
}

#[test]
fn intersect_sorted_ids_keeps_common_identifiers() {
    assert_eq!(
        intersect_sorted_ids(vec![id(1), id(3), id(5), id(9)], vec![id(0), id(3), id(9), id(12)]),
        vec![id(3), id(9)]
    );
    assert!(intersect_sorted_ids(vec![], vec![id(1)]).is_empty());
}

#[test]
fn exact_path_index_ignores_ascii_case_only() {
    let table = EntryTable::from_entries(vec![
        IndexedEntry::legacy("/Work/Notes.md", "Notes.md", IndexedEntryKind::File),
        IndexedEntry::legacy("/work/notes.md", "notes.md", IndexedEntryKind::File),
        IndexedEntry::legacy("/work/other.md", "other.md", IndexedEntryKind::File),
    ]);
    let exact = ExactPathIndex::build(&table);

    assert_eq!(exact.lookup(&table, "/WORK/NOTES.MD"), vec![id(0), id(1)]);
    assert!(exact.lookup(&table, "/work/notes").is_empty());
}

#[test]
fn extension_index_falls_back_to_the_name_and_ignores_leading_dots() {
    let table = EntryTable::from_entries(vec![
        IndexedEntry::legacy("/x/Report.PDF", "Report.PDF", IndexedEntryKind::File),
        IndexedEntry::legacy("/x/archive.tar.gz", "archive.tar.gz", IndexedEntryKind::File),
        IndexedEntry::legacy("/x/Makefile", "Makefile", IndexedEntryKind::File),
    ]);
    let extensions = ExtensionIndex::build(&table);

    assert_eq!(extensions.lookup(&table, "..pdf"), vec![id(0)]);
    assert_eq!(extensions.lookup(&table, "GZ"), vec![id(1)]);
    assert!(extensions.lookup(&table, "tar").is_empty());
}

#[test]
fn name_lookup_full_needs_the_whole_term() {
    let table = EntryTable::from_entries(vec![
        IndexedEntry::legacy("/a/report.md", "report.md", IndexedEntryKind::File),
        IndexedEntry::legacy("/a/repository.md", "repository.md", IndexedEntryKind::File),
    ]);
    let names = NameNgramIndex::build(&table).unwrap();

    assert_eq!(names.lookup(&table, "REPORT"), vec![id(0), id(1)]);
    assert_eq!(names.lookup_full(&table, "REPORT"), vec![id(0)]);
    assert!(names.lookup_full(&table, "").is_empty());
    assert!(names.lookup(&table, "").is_empty());
}

#[test]
fn directories_are_found_under_their_own_name_and_files_are_not() {
    let table = EntryTable::from_entries(vec![
        IndexedEntry::legacy("/src/lib", "lib", IndexedEntryKind::Directory),
        IndexedEntry::legacy("/src/lib2", "lib2", IndexedEntryKind::File),
    ]);
    let segments = PathSegmentIndex::build(&table).unwrap();

    assert_eq!(segments.lookup(&table, "lib"), vec![id(0)]);
    assert_eq!(segments.lookup(&table, "SRC"), vec![id(0), id(1)]);
}

#[test]
fn segment_lookup_prefers_exact_segments_over_prefixes() {
    let table = EntryTable::from_entries(vec![
        IndexedEntry::legacy("/docs/a.md", "a.md", IndexedEntryKind::File),
        IndexedEntry::legacy("/docs-old/b.md", "b.md", IndexedEntryKind::File),
    ]);
    let segments = PathSegmentIndex::build(&table).unwrap();

    assert_eq!(segments.lookup(&table, "docs"), vec![id(0)]);
    assert_eq!(segments.lookup(&table, "doc"), vec![id(0), id(1)]);
}

#[test]
fn query_without_filters_has_no_candidates() {
    let index = CompactCandidateIndex::from_entries(vec![IndexedEntry::legacy(
        "/a/b.md",
        "b.md",
        IndexedEntryKind::File,
    )]);

    let retrieval = index.retrieve_query("   ");
    assert!(retrieval.candidates.is_empty());
    assert!(!retrieval.stats.used_full_scan);
    assert!(index.retrieve_query_name_priority("one two").is_none());
    assert!(index.retrieve_query_name_priority("zzz").is_none());
}

#[test]
fn exact_path_terms_are_found_without_a_full_scan() {
    let index = CompactCandidateIndex::from_entries(vec![
        IndexedEntry::legacy("/a/b.md", "b.md", IndexedEntryKind::File),
        IndexedEntry::legacy("/a/c.md", "c.md", IndexedEntryKind::File),
    ]);

    let retrieval = index.retrieve_ordinary_term("/A/C.MD");
    assert_eq!(retrieval.candidates, vec![id(1)]);
    assert!(!retrieval.stats.used_full_scan);
    assert_eq!(index.retrieve_query_paths("/a/c.md"), vec!["/a/c.md".to_owned()]);
}

#[test]
fn candidate_index_exposes_its_entries() {
    let index = CompactCandidateIndex::from_entries(vec![
        IndexedEntry::legacy("/a/b.md", "b.md", IndexedEntryKind::File),
        IndexedEntry::legacy("/a/c.md", "c.md", IndexedEntryKind::File),
    ]);

    assert_eq!(index.entry_count(), 2);
    assert!(!index.is_empty());
    assert_eq!(index.entry_ids(), vec![id(0), id(1)]);
    let entries = index.materialized_entries();
    assert_eq!(entries[1].path, "/a/c.md");
    let entry = index.entry_ref(id(1)).unwrap();
    assert_eq!(entry.name(), "c.md");
    assert_eq!(entry.parent(), "");
    assert_eq!(entry.extension(), None);
    assert!(!entry.has_custom_search_text());
    assert_eq!(entry.match_search_text(), "/a/c.md");
    assert_eq!(entry.search_text(), build_search_text("c.md", "/a/c.md"));
    assert!(index.entry_ref(id(2)).is_none());
    assert!(index.estimated_bytes() >= std::mem::size_of::<CompactCandidateIndex>());
}
