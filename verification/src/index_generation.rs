//! Stored index generations and their recovery summary.

use vstd::prelude::*;
use crate::text::str_eq;

verus! {

pub const INDEX_GENERATION_DATA_VERSION: i64 = 1;

#[derive(Debug, Clone, Copy, PartialEq, Eq, Structural)]
pub enum IndexGenerationState {
    Building,
    Prepared,
    Active,
    Obsolete,
}

/// The state stored as `building`, `prepared`, `active` or `obsolete`.
pub open spec fn generation_state_from_storage_spec(value: Seq<char>) -> Option<IndexGenerationState> {
    if value == "building"@ {
        Some(IndexGenerationState::Building)
    } else if value == "prepared"@ {
        Some(IndexGenerationState::Prepared)
    } else if value == "active"@ {
        Some(IndexGenerationState::Active)
    } else if value == "obsolete"@ {
        Some(IndexGenerationState::Obsolete)
    } else {
        None
    }
}

impl IndexGenerationState {
    pub fn from_storage(value: &str) -> (r: Option<Self>)
        ensures
            r == generation_state_from_storage_spec(value@),
    {
        if str_eq(value, "building") {
            Some(IndexGenerationState::Building)
        } else if str_eq(value, "prepared") {
            Some(IndexGenerationState::Prepared)
        } else if str_eq(value, "active") {
            Some(IndexGenerationState::Active)
        } else if str_eq(value, "obsolete") {
            Some(IndexGenerationState::Obsolete)
        } else {
            None
        }
    }
}

#[derive(Debug, Clone, PartialEq, Eq, Default)]
pub struct IndexGenerationScanSummary {
    pub scanned: u64,
    pub accepted: u64,
    pub skipped: u64,
    pub failures: u64,
}

#[derive(Debug, Clone, PartialEq, Eq)]
pub struct IndexGenerationRootState {
    pub root: String,
    pub stage: String,
    pub degraded: bool,
}

#[derive(Debug, Clone, PartialEq, Eq)]
pub struct IndexGenerationRecord {
    pub batch_id: i64,
    pub config_fingerprint: String,
    pub state: IndexGenerationState,
    pub data_version: i64,
    pub entry_count: u64,
    pub created_at_ms: i64,
    pub updated_at_ms: i64,
    pub scan_summary: IndexGenerationScanSummary,
    pub roots: Vec<IndexGenerationRootState>,
}

#[derive(Debug, Clone, Copy, PartialEq, Eq, Structural)]
pub enum IndexGenerationResumeKind {
    Idle,
    Prepared,
    Building,
    Create,
}

#[derive(Debug, Clone, PartialEq, Eq)]
pub struct IndexGenerationRecovery {
    /// A compatible active baseline can be mounted immediately, even when maintenance work exists.
    pub active: Option<IndexGenerationRecord>,
    /// At most one compatible building or prepared generation is retained.
    pub pending: Option<IndexGenerationRecord>,
    pub resume: IndexGenerationResumeKind,
}

#[derive(Debug, Clone, PartialEq, Eq, Default)]
pub struct IndexStorageGcResult {
    pub deleted_generations: u64,
    pub deleted_entries: u64,
    pub freelist_pages_before: u64,
    pub freelist_pages_after: u64,
    pub completed_at_ms: i64,
}

#[derive(Debug, Clone, PartialEq, Eq)]
pub struct IndexStorageDiagnostics {
    pub active_generation: Option<i64>,
    pub pending_generation: Option<i64>,
    pub generations: Vec<IndexGenerationRecord>,
    pub database_size_bytes: u64,
    pub wal_size_bytes: u64,
    pub freelist_page_count: u64,
    pub page_count: u64,
    pub auto_vacuum_incremental: bool,
    pub auto_vacuum_migration_required: bool,
    pub last_gc: Option<IndexStorageGcResult>,
}

} // verus!
