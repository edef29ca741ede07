pub mod text;
pub mod index_entry;
pub mod platform;
pub mod index_refresh_orchestrator;
pub mod index_generation;
pub mod actions;
pub mod file_query;
pub mod compact_index;
pub mod paths;
pub mod index_watcher;
pub mod index_update_coordinator;
pub mod index_source;
pub mod config;
pub mod layered_index;
pub mod str_map;
pub mod runtime_indexing;
pub mod file_matcher;
pub mod content_index;
pub mod index_scanner;
pub mod ignore_rules;
pub mod scan_steps;
pub mod regex_search;
pub mod providers;
pub mod targeted_merge;
pub mod generic_index_source;
pub mod index;
pub mod root_availability_monitor;
pub mod index_journal;
