# quickfox_core

The indexing and search core of the QuickFox launcher, written in Verus. Verus
checks every function in `src/`: it proves the `requires` / `ensures` contracts
the functions carry, and for the few without one (small helpers whose result
nothing downstream relies on) that they cannot panic or overflow.

## Layout

- `src/` — the verified library.
  - `index_entry`, `paths`, `text`: indexed entries, path keys and path
    ordering, and the text operations they rest on.
  - `compact_index`: the packed entry table and the name n-gram, extension,
    path-segment and exact-path candidate indexes.
  - `index`, `layered_index`, `str_map`: the searchable index, and the layered
    index of a baseline under an overlay of committed deltas and tombstones.
  - `index_journal`: checking and replaying the committed delta journal.
  - `index_scanner`, `generic_index_source`, `index_source`: scan plans, the
    path rules every scanner applies (forced exclusions, excluded directories,
    exclude globs, configured roots) and scan bookkeeping.
  - `scan_steps`, `ignore_rules`: the per-entry decisions of streaming scans
    (counting, batching, directories to visit, failed directories) and the
    precedence of `.ignore`, `.gitignore`, git exclude and global ignore files.
  - `index_watcher`, `index_update_coordinator`, `index_refresh_orchestrator`,
    `runtime_indexing`, `root_availability_monitor`, `index_generation`: how
    file-system events are batched, coalesced and turned into refreshes.
  - `file_query`, `file_matcher`, `content_index`, `regex_search`: query
    parsing, matching of names, paths and globs, `re:` regular-expression
    search, and the binary and size checks of content indexing.
  - `config`, `platform`, `actions`: configuration defaults and validation,
    shortcuts and platform commands, and the routing of launcher actions.
- `tests/` — the test suite, run against the compiled library.
- `app/` — the unverified shell: file-system walking, watching, storage of the
  configuration, and the loops that feed the library's step functions.

Calls into `globset`, `ignore`, `regex`, `nucleo-matcher`, `content_inspector` and a few `std`
functions go through small trusted wrappers whose contracts name or state what
those functions return.
