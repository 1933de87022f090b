//! The daemon's request handling: the request and response sums of the IPC
//! protocol, and the pure decision function from state and request to what
//! the connection loop must do. Socket reading, JSON framing and the accept
//! loop live with the embedding program.

use vstd::prelude::*;
use crate::state::{changed_paths, DaemonState, DaemonStats};
use crate::symbol_graph::assoc;

verus! {

/// A request read from the local socket.
#[derive(Debug)]
pub enum DaemonRequest {
    /// The cached digest of one path.
    GetHash { path: String },
    /// The global fingerprint of the tree.
    GlobalHash,
    /// The paths that changed relative to the given path/digest map.
    GetChanged { hashes: Vec<(String, String)> },
    /// Rescan the tree.
    Rescan,
    /// Index statistics.
    Stats,
    /// Stop the daemon.
    Shutdown,
}

/// A response written back over the socket.
#[derive(Debug)]
pub enum DaemonResponse {
    Hash(Option<String>),
    GlobalHash(String),
    Changed(Vec<String>),
    Stats { cached_files: usize, db_size: u64 },
    /// Acknowledgement without data; the wire protocol tags it "Ok".
    Done,
    Error(String),
}

/// What the connection loop must do for a request: answer directly, or
/// perform the one piece of outside work the request asks for.
pub enum RequestOutcome {
    /// Write this response.
    Reply(DaemonResponse),
    /// Compute the global fingerprint from the live file tree, then reply.
    NeedsGlobalHash,
    /// Exit the process; the client treats the closed socket as normal.
    ShutdownRequested,
}

/// Decide a request against the daemon state. Lookups and change detection
/// are answered from the in-memory index; the global fingerprint and
/// shutdown are handed back to the caller as actions.
pub fn handle_request(state: &DaemonState, req: &DaemonRequest) -> (r: RequestOutcome)
    requires
        state.wf(),
    ensures
        match req {
            DaemonRequest::GetHash { path } => r matches RequestOutcome::Reply(resp)
                && (resp matches DaemonResponse::Hash(h) && (match h {
                Some(hh) => assoc(state.spec_index(), path@) matches Some(e) && e@ == hh@,
                None => assoc(state.spec_index(), path@) is None,
            })),
            DaemonRequest::GlobalHash => r is NeedsGlobalHash,
            DaemonRequest::GetChanged { hashes } => r matches RequestOutcome::Reply(resp) && (
            resp matches DaemonResponse::Changed(ps) && crate::symbols::strs_view(ps@)
                == changed_paths(state.spec_index(), hashes@)),
            DaemonRequest::Rescan => r matches RequestOutcome::Reply(resp) && resp
                is Done,
            DaemonRequest::Stats => r matches RequestOutcome::Reply(resp) && (
            resp matches DaemonResponse::Stats { cached_files, db_size } && cached_files
                == state.spec_index().len()),
            DaemonRequest::Shutdown => r is ShutdownRequested,
        },
{
    match req {
        DaemonRequest::GetHash { path } => {
            let h = state.get_hash(path);
            RequestOutcome::Reply(DaemonResponse::Hash(h))
        },
        DaemonRequest::GlobalHash => RequestOutcome::NeedsGlobalHash,
        DaemonRequest::GetChanged { hashes } => {
            let changed = state.get_changed(hashes);
            RequestOutcome::Reply(DaemonResponse::Changed(changed))
        },
        DaemonRequest::Rescan => RequestOutcome::Reply(DaemonResponse::Done),
        DaemonRequest::Stats => {
            let stats = state.stats();
            RequestOutcome::Reply(
                DaemonResponse::Stats { cached_files: stats.cached_files, db_size: stats.db_size },
            )
        },
        DaemonRequest::Shutdown => RequestOutcome::ShutdownRequested,
    }
}

} // verus!
