//! What each command reports, as plain data.
use vstd::prelude::*;

use crate::mesh::MeshPeer;

verus! {

/// How a checkout ended.
#[derive(Debug, Clone, Copy, PartialEq, Eq, Structural)]
pub enum CheckoutStatus {
    CheckedOut,
    Diverted,
    Forced,
}

/// Why a checkout ended the way it did.
#[derive(Debug, Clone, Copy, PartialEq, Eq, Structural)]
pub enum DecisionBasis {
    MeshClear,
    BranchOccupied,
    ClaimArbitrationWon,
    ClaimArbitrationLost,
    ForceBypass,
}

/// One step of a checkout, with its offset from the start of the checkout.
#[derive(Debug)]
pub struct DecisionTraceEntry {
    pub event: String,
    pub at_ms: u64,
}

/// A same-project peer that took part in a checkout decision.
#[derive(Debug)]
pub struct ObservedPeerOutput {
    pub agent_id: String,
    pub current_branch: String,
    pub intent_branch: Option<String>,
}

/// The report of `checkout`.
#[derive(Debug)]
pub struct CheckoutOutput {
    pub status: CheckoutStatus,
    pub requested_branch: String,
    pub occupied_by: Option<String>,
    pub decision_basis: DecisionBasis,
    pub observed_claims: Vec<String>,
    pub observed_peers: Vec<ObservedPeerOutput>,
    pub claim_winner: Option<String>,
    pub mesh_read_attempts: Option<usize>,
    pub mesh_read_backoff_ms: Vec<u64>,
    pub decision_trace: Vec<String>,
    pub decision_trace_entries: Vec<DecisionTraceEntry>,
    pub camp_update_status: CampUpdateStatus,
    pub camp_update_exit_code: Option<i32>,
    pub camp_update_stderr: Option<String>,
    pub actual_branch: String,
    pub message: String,
}

/// How the mesh sync after a checkout (`camp update --branch`) ended.
#[derive(Debug, Clone, Copy, PartialEq, Eq, Structural)]
pub enum CampUpdateStatus {
    Succeeded,
    Skipped,
    Failed,
}

/// Whether CAMP is available and running on this machine.
#[derive(Debug, Clone, Copy, PartialEq, Eq, Structural)]
pub enum CampStatus {
    Running,
    NotFound,
    Unknown,
}

/// The report of `init`.
#[derive(Debug)]
pub struct InitOutput {
    pub status: &'static str,
    pub agent_id: String,
    pub project: String,
    pub hook_path: String,
    pub message: String,
}

/// The report of `status`.
#[derive(Debug)]
pub struct StatusOutput {
    pub status: &'static str,
    pub agent_id: String,
    pub project: String,
    pub local_branch: String,
    pub peers: Vec<MeshPeer>,
    pub occupied_branches: Vec<OccupiedBranchSummary>,
    pub active_claims: Vec<ActiveClaimSummary>,
    pub camp_status: CampStatus,
}

/// A branch of the project and the agents on it.
#[derive(Debug)]
pub struct OccupiedBranchSummary {
    pub branch: String,
    pub occupied_by: Vec<String>,
}

/// A branch of the project, the agents claiming it, and who wins.
#[derive(Debug)]
pub struct ActiveClaimSummary {
    pub branch: String,
    pub claimants: Vec<String>,
    pub claim_winner: String,
}

/// The report printed for a failed command.
#[derive(Debug)]
pub struct ErrorOutput {
    pub status: &'static str,
    pub message: String,
}

/// The report of `up`, printed before delegating to `camp up`.
#[derive(Debug)]
pub struct UpOutput {
    pub status: &'static str,
    pub agent_id: String,
    pub project: String,
    pub branch: String,
    pub delegated_command: String,
    pub message: String,
}

/// How a guarded commit ended.
#[derive(Debug, Clone, Copy, PartialEq, Eq, Structural)]
pub enum CommitStatus {
    Committed,
}

/// The report of `commit`.
#[derive(Debug)]
pub struct CommitOutput {
    pub status: CommitStatus,
    pub branch: String,
    pub git_exit_code: i32,
    pub stdout: String,
    pub stderr: String,
    pub message: String,
}

/// Whether any checkout trace has been recorded.
#[derive(Debug, Clone, Copy, PartialEq, Eq, Structural)]
pub enum TraceStatus {
    Found,
    Empty,
}

} // verus!
