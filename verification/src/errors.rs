//! The error taxonomy of the bridge engine.

use vstd::prelude::*;

verus! {

/// Every failure a bridge operation can report.
///
/// `MainchainUnavailable` and `MainchainRejected` are surfaced by the callers
/// that talk to the mainchain node; the engine itself reports the rest.
/// `NoPendingWithdrawals` is an informational no-op signal, not a fault.
#[derive(Clone, Copy, Debug, PartialEq, Eq, Structural)]
pub enum BridgeError {
    /// The mainchain node could not be reached; the operation may be retried.
    MainchainUnavailable,
    /// The mainchain node refused a request at the protocol level.
    MainchainRejected,
    /// A BMM attempt was anchored to a block that is no longer the tip.
    StaleAnchor,
    /// A batch claimed an outpoint twice, or conflicted with recorded state;
    /// the whole batch was discarded.
    DoubleSpend,
    /// A malformed address was rejected before any state mutation.
    InvalidAddress,
    /// A malformed block or critical hash was rejected before any state mutation.
    InvalidHash,
    /// A malformed outpoint was rejected before any state mutation.
    InvalidOutpoint,
    /// There was no pending withdrawal to bundle; nothing was done.
    NoPendingWithdrawals,
    /// The mainchain node rejected a bundle; the withdrawals stay pending.
    BroadcastRejected,
}

impl BridgeError {
    /// A short human-readable description of the error.
    pub fn describe(&self) -> (r: &'static str)
        ensures
            r@.len() > 0,
    {
        proof {
            reveal_strlit("mainchain unavailable");
            reveal_strlit("mainchain rejected the request");
            reveal_strlit("BMM anchor is stale");
            reveal_strlit("conflicting outpoint claim");
            reveal_strlit("invalid address");
            reveal_strlit("invalid hash");
            reveal_strlit("invalid outpoint");
            reveal_strlit("no pending withdrawals");
            reveal_strlit("bundle broadcast rejected");
        }
        match self {
            BridgeError::MainchainUnavailable => "mainchain unavailable",
            BridgeError::MainchainRejected => "mainchain rejected the request",
            BridgeError::StaleAnchor => "BMM anchor is stale",
            BridgeError::DoubleSpend => "conflicting outpoint claim",
            BridgeError::InvalidAddress => "invalid address",
            BridgeError::InvalidHash => "invalid hash",
            BridgeError::InvalidOutpoint => "invalid outpoint",
            BridgeError::NoPendingWithdrawals => "no pending withdrawals",
            BridgeError::BroadcastRejected => "bundle broadcast rejected",
        }
    }
}

} // verus!
