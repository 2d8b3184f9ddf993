//! The persistent application state record, and its pure updates.
//!
//! Loading and saving the record are I/O and live with the caller; the
//! field updates each command performs are specified here.

use vstd::prelude::*;

verus! {

/// The persisted application state.
pub struct AppState {
    /// The configured local root (the parent of the sync root folder).
    pub textures_path: Option<String>,
    /// Whether the initial installation has been completed.
    pub initial_setup_done: bool,
    /// The revision of the last successful sync.
    pub last_sync_commit: Option<String>,
}

impl Clone for AppState {
    fn clone(&self) -> (r: AppState)
        ensures
            r.textures_path == self.textures_path,
            r.initial_setup_done == self.initial_setup_done,
            r.last_sync_commit == self.last_sync_commit,
    {
        AppState {
            textures_path: match &self.textures_path {
                Some(p) => Some(p.clone()),
                None => None,
            },
            initial_setup_done: self.initial_setup_done,
            last_sync_commit: match &self.last_sync_commit {
                Some(p) => Some(p.clone()),
                None => None,
            },
        }
    }
}

impl Default for AppState {
    /// The state before any configuration: no root, setup not done, no
    /// synced revision.
    fn default() -> (r: AppState)
        ensures
            r.textures_path is None,
            !r.initial_setup_done,
            r.last_sync_commit is None,
    {
        AppState { textures_path: None, initial_setup_done: false, last_sync_commit: None }
    }
}

/// Record the configured local root.
pub fn set_textures_path(state: AppState, path: String) -> (r: AppState)
    ensures
        r.textures_path == Some(path),
        r.initial_setup_done == state.initial_setup_done,
        r.last_sync_commit == state.last_sync_commit,
{
    AppState { textures_path: Some(path), ..state }
}

/// Mark the initial setup complete and record the revision it installed.
pub fn mark_setup_complete(state: AppState, commit_sha: String) -> (r: AppState)
    ensures
        r.textures_path == state.textures_path,
        r.initial_setup_done,
        r.last_sync_commit == Some(commit_sha),
{
    AppState { initial_setup_done: true, last_sync_commit: Some(commit_sha), ..state }
}

/// Record the revision of the last successful sync.
pub fn update_last_sync_commit(state: AppState, commit_sha: String) -> (r: AppState)
    ensures
        r.textures_path == state.textures_path,
        r.initial_setup_done == state.initial_setup_done,
        r.last_sync_commit == Some(commit_sha),
{
    AppState { last_sync_commit: Some(commit_sha), ..state }
}

/// Set the setup flag by hand (for a tree that is already installed).
pub fn set_initial_setup_done(state: AppState, done: bool) -> (r: AppState)
    ensures
        r.textures_path == state.textures_path,
        r.initial_setup_done == done,
        r.last_sync_commit == state.last_sync_commit,
{
    AppState { initial_setup_done: done, ..state }
}

} // verus!
