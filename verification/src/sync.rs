//! The sync orchestrator's pure half: progress payloads, the download
//! source resolution, and the run/status summaries.
//!
//! Execution order belongs to the caller (downloads first, deletions
//! second); everything it needs to decide per item — where a download's
//! content is fetched from, what each progress event says, what the final
//! summary holds — is computed and specified here.

use vstd::prelude::*;
use vstd::string::StringExecFns;
use crate::paths::enabled_of;
use crate::plan::SyncPlan;

verus! {

/// One file entry used in sync comparison.
pub struct FileInfo {
    pub path: String,
    pub sha: String,
}

/// One progress event: a stage name, a human-readable message and, for
/// item-level stages, a 1-based current/total pair.
pub struct SyncProgressPayload {
    pub stage: String,
    pub message: String,
    pub current: Option<u32>,
    pub total: Option<u32>,
}

/// The summary of one executed sync run.
pub struct SyncResult {
    pub files_downloaded: u32,
    pub files_deleted: u32,
    pub files_skipped: u32,
    pub new_commit_sha: String,
}

/// The summary of a status check: what a run would do, without mutation.
pub struct SyncStatusResult {
    pub latest_commit_sha: String,
    pub files_to_download: u32,
    pub files_to_delete: u32,
    pub files_up_to_date: u32,
    pub is_up_to_date: bool,
}

/// The remote path a download's content is fetched from: always the
/// canonical (enabled) form, also when the destination is a disabled path.
pub open spec fn source_path_of(p: Seq<char>) -> Seq<char> {
    match enabled_of(p) {
        Some(e) => e,
        None => p,
    }
}

/// Resolve the remote path to fetch a scheduled download from.
pub fn download_source_path(path: &str) -> (r: String)
    ensures
        r@ == source_path_of(path@),
{
    match crate::paths::get_enabled_path(path) {
        Some(e) => e,
        None => path.to_owned(),
    }
}

/// A stage-transition progress event, with no item counter.
pub fn stage_progress(stage: String, message: String) -> (p: SyncProgressPayload)
    ensures
        p.stage@ == stage@,
        p.message@ == message@,
        p.current is None,
        p.total is None,
{
    SyncProgressPayload { stage, message, current: None, total: None }
}

/// The progress event for one scheduled download.
pub fn downloading_progress(path: &str, current: u32, total: u32) -> (p: SyncProgressPayload)
    ensures
        p.stage@ == "downloading"@,
        p.message@ == "Downloading: "@ + path@,
        p.current == Some(current),
        p.total == Some(total),
{
    let mut message: String = "Downloading: ".to_owned();
    message.append(path);
    SyncProgressPayload {
        stage: "downloading".to_owned(),
        message,
        current: Some(current),
        total: Some(total),
    }
}

/// The progress event for one scheduled deletion.
pub fn deleting_progress(path: &str, current: u32, total: u32) -> (p: SyncProgressPayload)
    ensures
        p.stage@ == "deleting"@,
        p.message@ == "Deleting: "@ + path@,
        p.current == Some(current),
        p.total == Some(total),
{
    let mut message: String = "Deleting: ".to_owned();
    message.append(path);
    SyncProgressPayload {
        stage: "deleting".to_owned(),
        message,
        current: Some(current),
        total: Some(total),
    }
}

/// The summary of a fully executed plan, under the revision it synchronized
/// to.
pub fn sync_summary(plan: &SyncPlan, new_commit_sha: String) -> (r: SyncResult)
    requires
        plan.to_download@.len() <= u32::MAX,
        plan.to_delete@.len() <= u32::MAX,
    ensures
        r.files_downloaded == plan.to_download@.len(),
        r.files_deleted == plan.to_delete@.len(),
        r.files_skipped == plan.skipped,
        r.new_commit_sha@ == new_commit_sha@,
{
    SyncResult {
        files_downloaded: plan.to_download.len() as u32,
        files_deleted: plan.to_delete.len() as u32,
        files_skipped: plan.skipped,
        new_commit_sha,
    }
}

/// The summary of a status check over a plan, under the remote's current
/// revision.
pub fn check_sync_counts(plan: &SyncPlan, latest_commit_sha: String) -> (r: SyncStatusResult)
    requires
        plan.to_download@.len() <= u32::MAX,
        plan.to_delete@.len() <= u32::MAX,
    ensures
        r.latest_commit_sha@ == latest_commit_sha@,
        r.files_to_download == plan.to_download@.len(),
        r.files_to_delete == plan.to_delete@.len(),
        r.files_up_to_date == plan.up_to_date,
        r.is_up_to_date == (plan.to_download@.len() == 0 && plan.to_delete@.len() == 0),
{
    let files_to_download = plan.to_download.len() as u32;
    let files_to_delete = plan.to_delete.len() as u32;
    SyncStatusResult {
        latest_commit_sha,
        files_to_download,
        files_to_delete,
        files_up_to_date: plan.up_to_date,
        is_up_to_date: files_to_download == 0 && files_to_delete == 0,
    }
}

} // verus!
