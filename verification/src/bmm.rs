//! The blind-merged-mining attempt/confirm state machine.
//!
//! An attempt commits a sidechain block digest to the mainchain, anchored to
//! the observed tip; the commitment is expected in the anchor's direct
//! child.  A later confirm call resolves the attempt against the then
//! observed tip.  The mainchain itself is only ever observed: the caller
//! fetches the tip, its parent and its commitment and hands them in as plain
//! values.

use vstd::prelude::*;
use crate::errors::BridgeError;
use crate::hexcodec::{valid_hex, hex_bytes, hex_decode, copy_bytes};
use crate::order::bytes_cmp;
use crate::state::{Drivechain, StoreView, BmmState, BmmAttempt, BmmSlot, BmmSlotView};

verus! {

/// Decode a 64-digit hex string into the 32 bytes of a block or critical
/// hash; anything else is `InvalidHash`.
pub fn decode_main_block_hash(s: &str) -> (r: Result<Vec<u8>, BridgeError>)
    ensures
        (r is Ok) == (valid_hex(s@) && hex_bytes(s@).len() == 32),
        r matches Ok(v) ==> v@ == hex_bytes(s@),
        r matches Err(e) ==> e == BridgeError::InvalidHash,
{
    match hex_decode(s) {
        Some(v) => {
            if v.len() == 32 {
                Ok(v)
            } else {
                Err(BridgeError::InvalidHash)
            }
        },
        None => Err(BridgeError::InvalidHash),
    }
}

/// The view of an optional byte vector.
pub open spec fn opt_bytes_view(o: Option<Vec<u8>>) -> Option<Seq<u8>> {
    match o {
        Some(v) => Some(v@),
        None => None,
    }
}

/// How a confirm call resolves the attempt slot, given the observed tip,
/// the tip's parent and the tip's commitment: still pending while the tip is
/// the anchor itself; succeeded exactly when the tip is the anchor's child
/// and carries the attempted commitment; failed on any other advance or
/// reorganization.  Without an outstanding attempt there is nothing to
/// confirm, and a resolution is terminal.
pub open spec fn confirm_outcome(
    slot: BmmSlotView,
    tip: Seq<u8>,
    tip_prev: Seq<u8>,
    commitment: Option<Seq<u8>>,
) -> (BmmSlotView, BmmState) {
    match slot {
        BmmSlotView::NoAttempt => (slot, BmmState::Failed),
        BmmSlotView::Resolved(st) => (slot, st),
        BmmSlotView::Unresolved(a) => {
            if tip == a.prev_main_block_hash {
                (slot, BmmState::Pending)
            } else if tip_prev == a.prev_main_block_hash && commitment == Some(a.critical_hash) {
                (BmmSlotView::Resolved(BmmState::Succeeded), BmmState::Succeeded)
            } else {
                (BmmSlotView::Resolved(BmmState::Failed), BmmState::Failed)
            }
        },
    }
}

impl Drivechain {
    /// Start (or supersede) a blind-merged-mining attempt.
    ///
    /// Both hashes and the observed mainchain tip must be 64 hex digits
    /// (`InvalidHash` otherwise); the anchor must equal the observed tip
    /// (`StaleAnchor` otherwise — a bid on superseded chain state would be
    /// wasted).  On success the attempt is recorded as the one outstanding
    /// attempt and returned, for the caller to broadcast as a coinbase
    /// commitment paying `amount`.
    pub fn attempt_bmm(
        &mut self,
        critical_hash: &str,
        prev_main_block_hash: &str,
        amount: u64,
        main_tip: &str,
    ) -> (r: Result<BmmAttempt, BridgeError>)
        requires
            old(self)@.wf(),
        ensures
            final(self)@.wf(),
            ({
                let s0 = old(self)@;
                let ch_ok = valid_hex(critical_hash@) && hex_bytes(critical_hash@).len() == 32;
                let ph_ok = valid_hex(prev_main_block_hash@) && hex_bytes(
                    prev_main_block_hash@,
                ).len() == 32;
                let tip_ok = valid_hex(main_tip@) && hex_bytes(main_tip@).len() == 32;
                match r {
                    Ok(a) => {
                        &&& ch_ok && ph_ok && tip_ok
                        &&& hex_bytes(prev_main_block_hash@) == hex_bytes(main_tip@)
                        &&& a@.critical_hash == hex_bytes(critical_hash@)
                        &&& a@.prev_main_block_hash == hex_bytes(prev_main_block_hash@)
                        &&& a@.amount == amount
                        &&& final(self)@ == StoreView { bmm: BmmSlotView::Unresolved(a@), ..s0 }
                    },
                    Err(e) => {
                        &&& final(self)@ == s0
                        &&& if !(ch_ok && ph_ok && tip_ok) {
                            e == BridgeError::InvalidHash
                        } else {
                            e == BridgeError::StaleAnchor && hex_bytes(prev_main_block_hash@)
                                != hex_bytes(main_tip@)
                        }
                    },
                }
            }),
    {
        let ch = match decode_main_block_hash(critical_hash) {
            Ok(v) => v,
            Err(e) => {
                return Err(e);
            },
        };
        let ph = match decode_main_block_hash(prev_main_block_hash) {
            Ok(v) => v,
            Err(e) => {
                return Err(e);
            },
        };
        let tip = match decode_main_block_hash(main_tip) {
            Ok(v) => v,
            Err(e) => {
                return Err(e);
            },
        };
        if bytes_cmp(&ph, &tip) != 1 {
            return Err(BridgeError::StaleAnchor);
        }
        let recorded = BmmAttempt {
            critical_hash: copy_bytes(&ch),
            prev_main_block_hash: copy_bytes(&ph),
            amount,
        };
        self.bmm = BmmSlot::Unresolved(recorded);
        let a = BmmAttempt { critical_hash: ch, prev_main_block_hash: ph, amount };
        proof {
            assert(self@ =~~= (StoreView { bmm: BmmSlotView::Unresolved(a@), ..old(self)@ }));
        }
        Ok(a)
    }

    /// Resolve the outstanding attempt against the observed mainchain tip.
    ///
    /// The caller hands in the tip hash, the tip's parent hash and the BMM
    /// commitment the tip carries for this sidechain, if any; the result and
    /// the new slot are exactly `confirm_outcome` of the old slot and those
    /// observations.
    pub fn confirm_bmm(
        &mut self,
        tip_hash: &Vec<u8>,
        tip_prev_hash: &Vec<u8>,
        tip_commitment: &Option<Vec<u8>>,
    ) -> (r: BmmState)
        requires
            old(self)@.wf(),
        ensures
            final(self)@.wf(),
            ({
                let (slot2, st) = confirm_outcome(
                    old(self)@.bmm,
                    tip_hash@,
                    tip_prev_hash@,
                    opt_bytes_view(*tip_commitment),
                );
                r == st && final(self)@ == StoreView { bmm: slot2, ..old(self)@ }
            }),
    {
        let outcome: u8 = match &self.bmm {
            BmmSlot::NoAttempt => 0,
            BmmSlot::Resolved(st) => {
                return *st;
            },
            BmmSlot::Unresolved(a) => {
                if bytes_cmp(tip_hash, &a.prev_main_block_hash) == 1 {
                    1
                } else {
                    let anchored = bytes_cmp(tip_prev_hash, &a.prev_main_block_hash) == 1;
                    let matched = match tip_commitment {
                        Some(c) => bytes_cmp(c, &a.critical_hash) == 1,
                        None => false,
                    };
                    if anchored && matched {
                        2
                    } else {
                        3
                    }
                }
            },
        };
        if outcome == 0 {
            return BmmState::Failed;
        }
        if outcome == 1 {
            return BmmState::Pending;
        }
        if outcome == 2 {
            self.bmm = BmmSlot::Resolved(BmmState::Succeeded);
            proof {
                assert(self@ =~~= (StoreView {
                    bmm: BmmSlotView::Resolved(BmmState::Succeeded),
                    ..old(self)@
                }));
            }
            return BmmState::Succeeded;
        }
        self.bmm = BmmSlot::Resolved(BmmState::Failed);
        proof {
            assert(self@ =~~= (StoreView {
                bmm: BmmSlotView::Resolved(BmmState::Failed),
                ..old(self)@
            }));
        }
        BmmState::Failed
    }

    /// Check a claimed historical commitment: true exactly when both hashes
    /// are well formed and the block's observed commitment equals the given
    /// critical hash.  Mismatch and lookup failure are normal outcomes, not
    /// faults; nothing is mutated.
    pub fn verify_bmm(
        &self,
        main_block_hash: &str,
        critical_hash: &str,
        observed_commitment: &Option<Vec<u8>>,
    ) -> (r: bool)
        ensures
            r == (valid_hex(main_block_hash@) && hex_bytes(main_block_hash@).len() == 32
                && valid_hex(critical_hash@) && hex_bytes(critical_hash@).len() == 32 && (
            opt_bytes_view(*observed_commitment) == Some(hex_bytes(critical_hash@)))),
    {
        let mb = match decode_main_block_hash(main_block_hash) {
            Ok(v) => v,
            Err(_) => {
                return false;
            },
        };
        let ch = match decode_main_block_hash(critical_hash) {
            Ok(v) => v,
            Err(_) => {
                return false;
            },
        };
        let _ = mb;
        match observed_commitment {
            Some(c) => bytes_cmp(c, &ch) == 1,
            None => false,
        }
    }
}

/// The BMM state-machine law: right after an attempt, a confirm against an
/// observed tip is `Pending` while the tip is still the anchor, `Succeeded`
/// exactly when the tip is the anchor's child and carries the attempted
/// commitment, and `Failed` otherwise; the slot stays unresolved only in the
/// pending case and the resolution is recorded otherwise.
pub proof fn lemma_bmm_attempt_then_confirm(
    a: crate::state::BmmAttemptView,
    tip: Seq<u8>,
    tip_prev: Seq<u8>,
    commitment: Option<Seq<u8>>,
)
    ensures
        ({
            let (slot2, st) = confirm_outcome(BmmSlotView::Unresolved(a), tip, tip_prev, commitment);
            &&& (st == BmmState::Succeeded <==> tip != a.prev_main_block_hash && tip_prev
                == a.prev_main_block_hash && commitment == Some(a.critical_hash))
            &&& (st == BmmState::Pending <==> tip == a.prev_main_block_hash)
            &&& (st == BmmState::Pending ==> slot2 == BmmSlotView::Unresolved(a))
            &&& (st != BmmState::Pending ==> slot2 == BmmSlotView::Resolved(st))
        }),
{
}

} // verus!
