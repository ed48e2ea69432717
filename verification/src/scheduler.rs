//! Run coordination: the configuration the process reads once, and the
//! decision table that drives the two triggers. Startup always ensures
//! the directory and runs one full download pass; a failure there aborts
//! the run. Only with watch mode requested does the run enter steady
//! state, where a poll tick starts a download pass and a file change
//! starts an upload of that path; per-cycle failures are logged and the
//! run continues.

use vstd::prelude::*;

use crate::numbers::{parse_u64, parse_u64_spec};
use crate::text::{find_char, find_char_from, lemma_find_char_bounds};
use crate::updater::{is_md_file_path, is_md_path};

verus! {

/// Process-wide configuration, read once at startup and never mutated.
pub struct SyncConfig {
    pub token: String,
    pub repo_owner: String,
    pub repo_name: String,
    pub issues_dir: String,
    pub watch: bool,
    pub poll_interval_secs: u64,
}

/// How a repository argument splits: around its single `/`, or not at
/// all when the count of `/` is not exactly one.
pub open spec fn repo_split(t: Seq<char>) -> Option<(Seq<char>, Seq<char>)> {
    match find_char_from(t, '/', 0) {
        Some(k) => {
            if find_char_from(t, '/', k + 1) is None {
                Some((t.subrange(0, k), t.subrange(k + 1, t.len() as int)))
            } else {
                None
            }
        },
        None => None,
    }
}

/// Split `owner/repo`; anything without exactly one separator is
/// rejected.
pub fn parse_repo(s: &str) -> (r: Option<(String, String)>)
    ensures
        match r {
            Some(p) => repo_split(s@) == Some((p.0@, p.1@)),
            None => repo_split(s@) is None,
        },
{
    let n: usize = s.unicode_len();
    proof {
        lemma_find_char_bounds(s@, '/', 0);
    }
    match find_char(s, '/', 0) {
        Some(k) => {
            proof {
                lemma_find_char_bounds(s@, '/', k + 1);
            }
            match find_char(s, '/', k + 1) {
                Some(_) => None,
                None => {
                    let owner = String::from_str(s.substring_char(0, k));
                    let name = String::from_str(s.substring_char(k + 1, n));
                    Some((owner, name))
                },
            }
        },
        None => None,
    }
}

/// The poll interval a textual argument selects: its value in seconds,
/// or the default of 300 when absent or unparsable.
pub open spec fn interval_of(s: Option<Seq<char>>) -> u64 {
    match s {
        Some(t) => match parse_u64_spec(t) {
            Some(v) => v,
            None => 300,
        },
        None => 300,
    }
}

/// Parse the poll-interval argument, falling back to the default rather
/// than failing.
pub fn interval_or_default(s: Option<&str>) -> (r: u64)
    ensures
        match s {
            Some(t) => r == interval_of(Some(t@)),
            None => r == 300,
        },
{
    match s {
        Some(t) => match parse_u64(t) {
            Some(v) => v,
            None => 300,
        },
        None => 300,
    }
}

/// Where the run stands.
#[derive(Debug, Clone, Copy, PartialEq, Eq, Structural)]
pub enum Phase {
    /// Ensuring the directory and running the mandatory initial pass.
    Startup,
    /// Watch mode: both triggers armed, running until terminated.
    Steady,
    /// One-shot run done.
    Finished,
    /// A fatal startup failure ended the run.
    Aborted,
}

/// What the surrounding process reports happened.
pub enum SyncEvent {
    /// The issues directory was created or found; `ok` says whether.
    DirReady { ok: bool },
    /// The mandatory initial download pass finished.
    InitialFetchDone { ok: bool },
    /// The poll interval elapsed.
    PollTick,
    /// A poll-triggered download pass finished.
    PollFetchDone { ok: bool },
    /// A file-change notification arrived for `path`.
    FileChanged { path: String, is_file: bool },
    /// A watch-triggered upload finished.
    UpdateDone { ok: bool },
}

/// What the surrounding process must do next.
pub enum SyncAction {
    /// Run a full download pass.
    StartFetch,
    /// Run the upload path for this file.
    StartUpdate(String),
    /// Log the failure and keep running; the next tick or event retries.
    LogAndContinue,
    /// Leave with success.
    ExitOk,
    /// Leave with an error.
    ExitError,
    /// Nothing to do.
    Ignore,
}

/// The decision table of the run: from the phase, the watch flag and an
/// event to the next phase and the action to perform. Startup failures
/// abort; steady-state failures are logged and the run continues; file
/// events for paths without the markdown extension are ignored by
/// design.
pub fn next_step(phase: Phase, watch: bool, event: SyncEvent) -> (r: (Phase, SyncAction))
    ensures
        match (phase, event) {
            (Phase::Startup, SyncEvent::DirReady { ok }) => r == if ok {
                (Phase::Startup, SyncAction::StartFetch)
            } else {
                (Phase::Aborted, SyncAction::ExitError)
            },
            (Phase::Startup, SyncEvent::InitialFetchDone { ok }) => r == if !ok {
                (Phase::Aborted, SyncAction::ExitError)
            } else if watch {
                (Phase::Steady, SyncAction::Ignore)
            } else {
                (Phase::Finished, SyncAction::ExitOk)
            },
            (Phase::Steady, SyncEvent::PollTick) => r == (Phase::Steady, SyncAction::StartFetch),
            (Phase::Steady, SyncEvent::PollFetchDone { ok }) => r == if ok {
                (Phase::Steady, SyncAction::Ignore)
            } else {
                (Phase::Steady, SyncAction::LogAndContinue)
            },
            (Phase::Steady, SyncEvent::FileChanged { path, is_file }) => r == if is_file
                && is_md_path(path@) {
                (Phase::Steady, SyncAction::StartUpdate(path))
            } else {
                (Phase::Steady, SyncAction::Ignore)
            },
            (Phase::Steady, SyncEvent::UpdateDone { ok }) => r == if ok {
                (Phase::Steady, SyncAction::Ignore)
            } else {
                (Phase::Steady, SyncAction::LogAndContinue)
            },
            _ => r == (phase, SyncAction::Ignore),
        },
{
    match (phase, event) {
        (Phase::Startup, SyncEvent::DirReady { ok }) => {
            if ok {
                (Phase::Startup, SyncAction::StartFetch)
            } else {
                (Phase::Aborted, SyncAction::ExitError)
            }
        },
        (Phase::Startup, SyncEvent::InitialFetchDone { ok }) => {
            if !ok {
                (Phase::Aborted, SyncAction::ExitError)
            } else if watch {
                (Phase::Steady, SyncAction::Ignore)
            } else {
                (Phase::Finished, SyncAction::ExitOk)
            }
        },
        (Phase::Steady, SyncEvent::PollTick) => (Phase::Steady, SyncAction::StartFetch),
        (Phase::Steady, SyncEvent::PollFetchDone { ok }) => {
            if ok {
                (Phase::Steady, SyncAction::Ignore)
            } else {
                (Phase::Steady, SyncAction::LogAndContinue)
            }
        },
        (Phase::Steady, SyncEvent::FileChanged { path, is_file }) => {
            if is_file && is_md_file_path(path.as_str()) {
                (Phase::Steady, SyncAction::StartUpdate(path))
            } else {
                (Phase::Steady, SyncAction::Ignore)
            }
        },
        (Phase::Steady, SyncEvent::UpdateDone { ok }) => {
            if ok {
                (Phase::Steady, SyncAction::Ignore)
            } else {
                (Phase::Steady, SyncAction::LogAndContinue)
            }
        },
        (p, _) => (p, SyncAction::Ignore),
    }
}

} // verus!
