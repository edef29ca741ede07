//! The decisions of a streaming scan, one directory entry at a time: what is
//! counted, what is handed out in batches, which directories are visited next,
//! and what a failed directory keeps. The caller reads the file system and
//! reports each entry; these steps say what to do with it.

use vstd::prelude::*;
use crate::index_entry::{IndexFailure, IndexReport, IndexScanStats, IndexedEntry, ScanEvent};
use crate::index_scanner::{
    bump, discovered_in_key_order, first_with_key, forced_or_user_excluded_spec, inside_app_bundle_spec,
    is_application_path, is_application_path_spec, is_first_path, path_keys, record_directory_failure, tally_entry,
    tallied, count_entry, entry_countable, EntryTally, IndexPathRules,
};
use crate::layered_index::ascending;
use crate::index::{sort_by_path_name, sorted_by_path_name};
use crate::index_scanner::push_failure;
use crate::index_entry::PathComparisonMode;

verus! {

/// Accepted entries are handed out once this many are waiting.
pub const STREAM_BATCH_SIZE: usize = 2048;

/// The scan of one directory, between its entries.
pub struct DirectoryScan {
    /// What this directory's entries came to so far.
    pub stats: IndexScanStats,
    /// Accepted entries not handed out yet.
    pub pending: Vec<IndexedEntry>,
    /// Subdirectories to visit after this one, in the order they were found.
    pub discovered: Vec<String>,
    /// The failure that ended the reading of the directory, if any.
    pub failure: Option<IndexFailure>,
}

/// What finishing a directory gives: the entries to hand out, the
/// subdirectories to visit (first of each key, in key order) and the
/// directory's statistics and failure for its checkpoint.
pub struct DirectoryOutcome {
    pub batch: Option<Vec<IndexedEntry>>,
    pub discovered: Vec<String>,
    pub stats: IndexScanStats,
    pub failure: Option<IndexFailure>,
}

/// The batch to hand out once an entry has joined `pending`: all of them when
/// there are enough.
pub open spec fn batch_due(pending: Seq<IndexedEntry>) -> bool {
    pending.len() >= STREAM_BATCH_SIZE
}

impl DirectoryScan {
    /// A directory whose reading begins; `pending` carries the accepted
    /// entries that earlier directories left waiting.
    pub fn start(pending: Vec<IndexedEntry>) -> (r: Self)
        ensures
            r.stats == (IndexScanStats { scanned: 0, accepted: 0, skipped: 0, failures: 0 }),
            r.pending@ == pending@,
            r.discovered@.len() == 0,
            r.failure is None,
    {
        DirectoryScan { stats: IndexScanStats { scanned: 0, accepted: 0, skipped: 0, failures: 0 }, pending, discovered: Vec::new(), failure: None }
    }

    /// An entry found at `path`: an excluded one is counted as skipped, in the
    /// report and the directory, and needs nothing more (`false`); any other
    /// must be inspected (`true`).
    pub fn found(&mut self, report: &mut IndexReport, rules: &IndexPathRules, mode: PathComparisonMode, path: &str) -> (r: bool)
        ensures
            r == !(forced_or_user_excluded_spec(*rules, path@, mode) || inside_app_bundle_spec(path@)),
            !r ==> final(report).scan_stats == tallied(old(report).scan_stats, EntryTally::Excluded)
                && final(self).stats == tallied(old(self).stats, EntryTally::Excluded),
            r ==> final(report).scan_stats == old(report).scan_stats && final(self).stats == old(self).stats,
            final(report).entries == old(report).entries,
            final(report).failures == old(report).failures,
            final(report).scan_events == old(report).scan_events,
            final(self).pending == old(self).pending,
            final(self).discovered == old(self).discovered,
            final(self).failure == old(self).failure,
    {
        if rules.is_excluded_for_mode(path, mode) {
            tally_entry(&mut report.scan_stats, &mut self.stats, EntryTally::Excluded);
            false
        } else {
            true
        }
    }

    /// The inspected entry at `path`: none when it cannot be indexed (counted
    /// as scanned and skipped); otherwise it is accepted and waits in
    /// `pending`, and a directory that is no application is to be visited.
    /// When enough entries wait, all of them are returned to hand out.
    pub fn inspected(&mut self, report: &mut IndexReport, path: String, entry: Option<IndexedEntry>, is_dir: bool) -> (r: Option<
        Vec<IndexedEntry>,
    >)
        ensures
            final(report).entries == old(report).entries,
            final(report).failures == old(report).failures,
            final(report).scan_events == old(report).scan_events,
            final(self).failure == old(self).failure,
            match entry {
                None => {
                    &&& final(report).scan_stats == tallied(old(report).scan_stats, EntryTally::Unindexable)
                    &&& final(self).stats == tallied(old(self).stats, EntryTally::Unindexable)
                    &&& final(self).pending@ == old(self).pending@
                    &&& final(self).discovered@ == old(self).discovered@
                    &&& r is None
                },
                Some(e) => {
                    let waiting = old(self).pending@.push(e);
                    &&& final(report).scan_stats == tallied(old(report).scan_stats, EntryTally::Accepted)
                    &&& final(self).stats == tallied(old(self).stats, EntryTally::Accepted)
                    &&& final(self).discovered@ == if is_dir && !is_application_path_spec(path@) {
                        old(self).discovered@.push(path)
                    } else {
                        old(self).discovered@
                    }
                    &&& batch_due(waiting) ==> r is Some && r->0@ == waiting && final(self).pending@.len() == 0
                    &&& !batch_due(waiting) ==> r is None && final(self).pending@ == waiting
                },
            },
    {
        match entry {
            None => {
                tally_entry(&mut report.scan_stats, &mut self.stats, EntryTally::Unindexable);
                None
            },
            Some(e) => {
                self.pending.push(e);
                tally_entry(&mut report.scan_stats, &mut self.stats, EntryTally::Accepted);
                if is_dir && !is_application_path(path.as_str()) {
                    self.discovered.push(path);
                }
                if self.pending.len() >= STREAM_BATCH_SIZE {
                    let mut batch = Vec::new();
                    std::mem::swap(&mut batch, &mut self.pending);
                    Some(batch)
                } else {
                    None
                }
            },
        }
    }

    /// The reading of the directory failed; no more of its entries are read.
    pub fn failed(&mut self, failure: IndexFailure)
        ensures
            final(self).failure == Some(failure),
            final(self).stats == old(self).stats,
            final(self).pending == old(self).pending,
            final(self).discovered == old(self).discovered,
    {
        self.failure = Some(failure);
    }

    /// Finishes the directory. After a failure its waiting entries and
    /// discovered subdirectories are dropped and the failure is recorded, in
    /// the report and the directory's statistics; otherwise the waiting
    /// entries are handed out, when there are any. The subdirectories come
    /// back first of each key, in key order.
    pub fn finish(self, report: &mut IndexReport, mode: PathComparisonMode) -> (r: DirectoryOutcome)
        ensures
            final(report).entries == old(report).entries,
            r.failure == self.failure,
            match self.failure {
                Some(f) => {
                    &&& r.batch is None
                    &&& r.discovered@.len() == 0
                    &&& r.stats == (IndexScanStats { failures: bump(self.stats.failures), ..self.stats })
                    &&& final(report).scan_stats == (IndexScanStats {
                        failures: bump(old(report).scan_stats.failures),
                        ..old(report).scan_stats
                    })
                    &&& final(report).scan_events@ == old(report).scan_events@.push(ScanEvent::Failure(f))
                    &&& final(report).failures@ == old(report).failures@.push(f)
                },
                None => {
                    &&& (r.batch is Some <==> self.pending@.len() > 0)
                    &&& r.batch matches Some(b) ==> b@ == self.pending@
                    &&& r.stats == self.stats
                    &&& ascending(path_keys(r.discovered@, mode))
                    &&& forall|k: int| 0 <= k < r.discovered@.len() ==> is_first_path(self.discovered@, (#[trigger] r.discovered@[k])@, mode)
                    &&& forall|i: int| #[trigger] first_with_key(self.discovered@, i, mode) ==> exists|k: int|
                        0 <= k < r.discovered@.len() && r.discovered@[k]@ == self.discovered@[i]@
                    &&& *final(report) == *old(report)
                },
            },
    {
        let DirectoryScan { stats, pending, discovered, failure } = self;
        let mut stats = stats;
        match failure {
            Some(f) => {
                let kept = IndexFailure { root: f.root.clone(), message: f.message.clone() };
                record_directory_failure(report, &mut stats, kept);
                let discovered = discovered_in_key_order(&[], mode);
                proof {
                    assert(discovered@.len() == 0) by {
                        if discovered@.len() > 0 {
                            assert(is_first_path(Seq::<String>::empty(), discovered@[0]@, mode));
                        }
                    }
                }
                DirectoryOutcome { batch: None, discovered, stats, failure: Some(f) }
            },
            None => {
                let found = discovered_in_key_order(discovered.as_slice(), mode);
                let batch = if pending.len() > 0 {
                    Some(pending)
                } else {
                    None
                };
                DirectoryOutcome { batch, discovered: found, stats, failure: None }
            },
        }
    }
}

/// The accepted entries of a walk, waiting to be handed out in batches; when
/// `retain` is set the report keeps them too.
pub struct StreamBatch {
    pub pending: Vec<IndexedEntry>,
    pub retain: bool,
}

impl StreamBatch {
    pub fn new(retain: bool) -> (r: Self)
        ensures
            r.pending@.len() == 0,
            r.retain == retain,
    {
        StreamBatch { pending: Vec::new(), retain }
    }

    /// An accepted entry: counted as scanned and accepted, and waiting; true
    /// when enough wait to hand them out.
    pub fn accept(&mut self, report: &mut IndexReport, entry: IndexedEntry) -> (r: bool)
        requires
            entry_countable(old(report).scan_stats, EntryTally::Accepted),
        ensures
            final(report).scan_stats == tallied(old(report).scan_stats, EntryTally::Accepted),
            final(report).entries == old(report).entries,
            final(report).failures == old(report).failures,
            final(report).scan_events == old(report).scan_events,
            final(self).pending@ == old(self).pending@.push(entry),
            final(self).retain == old(self).retain,
            r == batch_due(final(self).pending@),
    {
        count_entry(&mut report.scan_stats, EntryTally::Accepted);
        self.pending.push(entry);
        self.pending.len() >= STREAM_BATCH_SIZE
    }

    /// The waiting entries were handed out: the report keeps them when entries
    /// are retained, and none wait any more.
    pub fn handed_out(&mut self, report: &mut IndexReport)
        ensures
            final(self).pending@.len() == 0,
            final(self).retain == old(self).retain,
            final(report).entries@ == if old(self).retain {
                old(report).entries@ + old(self).pending@
            } else {
                old(report).entries@
            },
            final(report).scan_stats == old(report).scan_stats,
            final(report).failures == old(report).failures,
            final(report).scan_events == old(report).scan_events,
    {
        if self.retain {
            report.entries.append(&mut self.pending);
        } else {
            self.pending.clear();
        }
    }
}

/// The report of a scan whose target is a single file: one entry scanned,
/// accepted when it can be indexed and skipped otherwise.
pub fn single_file_report(entry: Option<IndexedEntry>) -> (r: IndexReport)
    ensures
        r.failures@.len() == 0,
        r.scan_events@.len() == 0,
        match entry {
            Some(e) => r.entries@ == seq![e] && r.scan_stats == (IndexScanStats {
                scanned: 1,
                accepted: 1,
                skipped: 0,
                failures: 0,
            }),
            None => r.entries@.len() == 0 && r.scan_stats == (IndexScanStats {
                scanned: 1,
                accepted: 0,
                skipped: 1,
                failures: 0,
            }),
        },
{
    let mut report = IndexReport::default();
    report.scan_stats.scanned = 1;
    match entry {
        Some(e) => {
            report.entries.push(e);
            report.scan_stats.accepted = 1;
        },
        None => {
            report.scan_stats.skipped = 1;
        },
    }
    report
}

/// Sorts the report's entries by path, then by name; nothing else changes.
pub fn sort_report_entries(report: &mut IndexReport)
    ensures
        sorted_by_path_name(final(report).entries@),
        final(report).entries@.to_multiset() == old(report).entries@.to_multiset(),
        final(report).failures == old(report).failures,
        final(report).scan_stats == old(report).scan_stats,
        final(report).scan_events == old(report).scan_events,
{
    let mut entries = Vec::new();
    std::mem::swap(&mut entries, &mut report.entries);
    report.entries = sort_by_path_name(entries);
}

/// The report of a scan whose target cannot be read: one failure for the
/// target, saying that it is not accessible when it does not exist and giving
/// the error's text otherwise.
pub fn unreadable_target_report(target: String, not_found: bool, error: String) -> (r: IndexReport)
    ensures
        r.entries@.len() == 0,
        r.failures@.len() == 1,
        r.failures@[0].root == target,
        r.failures@[0].message@ == if not_found {
            "target path is not accessible"@
        } else {
            error@
        },
        r.scan_stats == (IndexScanStats { scanned: 0, accepted: 0, skipped: 0, failures: 1 }),
{
    let message = if not_found {
        "target path is not accessible".to_string()
    } else {
        error
    };
    let mut report = IndexReport::default();
    push_failure(&mut report, IndexFailure { root: target, message });
    report
}

} // verus!
