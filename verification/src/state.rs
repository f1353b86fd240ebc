//! The bridge engine's state and its mathematical view.

use vstd::prelude::*;
use crate::table::{tbl_contains, tbl_sorted, tbl_view};

verus! {

/// A deposit observed on the mainchain: a credit to a sidechain address.
pub struct Deposit {
    /// Destination sidechain address.
    pub address: String,
    /// Amount in satoshi.
    pub amount: u64,
}

/// The view of a deposit.
#[verifier::ext_equal]
pub ghost struct DepositView {
    pub address: Seq<char>,
    pub amount: u64,
}

impl View for Deposit {
    type V = DepositView;

    open spec fn view(&self) -> DepositView {
        DepositView { address: self.address@, amount: self.amount }
    }
}

/// A recorded withdrawal: sidechain value on its way to a mainchain address.
/// The inclusion height is assigned by the engine when the block carrying the
/// withdrawal is connected; it is never accepted from the outside.
pub struct WithdrawalData {
    /// Destination mainchain address payload, exactly 20 bytes.
    pub dest: Vec<u8>,
    /// Amount in satoshi.
    pub amount: u64,
    /// Fee offered to the mainchain for the bundle.
    pub mainchain_fee: u64,
    /// Height of the block that introduced the withdrawal.
    pub height: u64,
}

/// The view of a recorded withdrawal.
#[verifier::ext_equal]
pub ghost struct WithdrawalView {
    pub dest: Seq<u8>,
    pub amount: u64,
    pub mainchain_fee: u64,
    pub height: u64,
}

impl View for WithdrawalData {
    type V = WithdrawalView;

    open spec fn view(&self) -> WithdrawalView {
        WithdrawalView {
            dest: self.dest@,
            amount: self.amount,
            mainchain_fee: self.mainchain_fee,
            height: self.height,
        }
    }
}

/// The resolution of a blind-merged-mining attempt.
#[derive(Clone, Copy, Debug, PartialEq, Eq, Structural)]
pub enum BmmState {
    /// The attempt is outstanding and the anchor is still the tip.
    Pending,
    /// The next mainchain block carried the attempt's commitment.
    Succeeded,
    /// The chain moved on without the commitment, or reorganized.
    Failed,
}

/// An outstanding blind-merged-mining attempt.
pub struct BmmAttempt {
    /// The sidechain block digest committed to the mainchain.
    pub critical_hash: Vec<u8>,
    /// The mainchain block the attempt is anchored to: the commitment is
    /// expected in the direct child of this block.
    pub prev_main_block_hash: Vec<u8>,
    /// The bid paid for the commitment, in satoshi.
    pub amount: u64,
}

/// The view of an attempt.
#[verifier::ext_equal]
pub ghost struct BmmAttemptView {
    pub critical_hash: Seq<u8>,
    pub prev_main_block_hash: Seq<u8>,
    pub amount: u64,
}

impl View for BmmAttempt {
    type V = BmmAttemptView;

    open spec fn view(&self) -> BmmAttemptView {
        BmmAttemptView {
            critical_hash: self.critical_hash@,
            prev_main_block_hash: self.prev_main_block_hash@,
            amount: self.amount,
        }
    }
}

/// The engine tracks at most one attempt; a new attempt supersedes an
/// unresolved one, and a resolution is terminal until the next attempt.
pub enum BmmSlot {
    /// No attempt has been made.
    NoAttempt,
    /// An attempt is outstanding and unresolved.
    Unresolved(BmmAttempt),
    /// The last attempt resolved to this state.
    Resolved(BmmState),
}

/// The view of the attempt slot.
#[verifier::ext_equal]
pub ghost enum BmmSlotView {
    NoAttempt,
    Unresolved(BmmAttemptView),
    Resolved(BmmState),
}

impl View for BmmSlot {
    type V = BmmSlotView;

    open spec fn view(&self) -> BmmSlotView {
        match self {
            BmmSlot::NoAttempt => BmmSlotView::NoAttempt,
            BmmSlot::Unresolved(a) => BmmSlotView::Unresolved(a@),
            BmmSlot::Resolved(s) => BmmSlotView::Resolved(*s),
        }
    }
}

/// The whole persisted state of the bridge engine, as mathematics: the
/// deposit list in insertion order, the withdrawal and refund tables sorted by
/// outpoint, the connected height, the outpoint set of the bundle in flight,
/// and the BMM attempt slot.
#[verifier::ext_equal]
pub ghost struct StoreView {
    pub deposits: Seq<DepositView>,
    pub withdrawals: Seq<(Seq<u8>, WithdrawalView)>,
    pub refunds: Seq<(Seq<u8>, u64)>,
    pub height: u64,
    pub in_flight: Option<Seq<Seq<u8>>>,
    pub bmm: BmmSlotView,
    pub sidechain_number: u64,
}

impl StoreView {
    /// An outpoint is spent exactly when a recorded withdrawal claims it.
    pub open spec fn spent(self, o: Seq<u8>) -> bool {
        tbl_contains(self.withdrawals, o)
    }

    /// Well-formedness: tables strictly sorted by outpoint, every refund
    /// matched by a withdrawal, and every destination exactly 20 bytes.
    pub open spec fn wf(self) -> bool {
        &&& tbl_sorted(self.withdrawals)
        &&& tbl_sorted(self.refunds)
        &&& forall|i: int|
            0 <= i < self.refunds.len() ==> tbl_contains(
                self.withdrawals,
                (#[trigger] self.refunds[i]).0,
            )
        &&& forall|i: int|
            0 <= i < self.withdrawals.len() ==> (#[trigger] self.withdrawals[i]).1.dest.len() == 20
    }
}

/// The bridge engine: the reorg-safe ledger of deposits, withdrawals and
/// refunds, the spent-outpoint bookkeeping, the withdrawal-bundle tracking
/// and the blind-merged-mining state machine.
pub struct Drivechain {
    pub(crate) deposits: Vec<Deposit>,
    pub(crate) withdrawals: Vec<(Vec<u8>, WithdrawalData)>,
    pub(crate) refunds: Vec<(Vec<u8>, u64)>,
    pub(crate) height: u64,
    pub(crate) in_flight: Option<Vec<Vec<u8>>>,
    pub(crate) bmm: BmmSlot,
    pub(crate) sidechain_number: u64,
}

impl View for Drivechain {
    type V = StoreView;

    open(crate) spec fn view(&self) -> StoreView {
        StoreView {
            deposits: self.deposits@.map_values(|d: Deposit| d@),
            withdrawals: tbl_view(self.withdrawals@),
            refunds: tbl_view(self.refunds@),
            height: self.height,
            in_flight: match self.in_flight {
                Some(v) => Some(v@.map_values(|o: Vec<u8>| o@)),
                None => None,
            },
            bmm: self.bmm@,
            sidechain_number: self.sidechain_number,
        }
    }
}

impl Drivechain {
    /// A fresh engine for sidechain number `this_sidechain`: nothing recorded,
    /// height zero, no bundle in flight, no BMM attempt.
    pub fn new(this_sidechain: u64) -> (r: Drivechain)
        ensures
            r@.wf(),
            r@.deposits.len() == 0,
            r@.withdrawals.len() == 0,
            r@.refunds.len() == 0,
            r@.height == 0,
            r@.in_flight is None,
            r@.bmm is NoAttempt,
            r@.sidechain_number == this_sidechain,
    {
        Drivechain {
            deposits: Vec::new(),
            withdrawals: Vec::new(),
            refunds: Vec::new(),
            height: 0,
            in_flight: None,
            bmm: BmmSlot::NoAttempt,
            sidechain_number: this_sidechain,
        }
    }
}

} // verus!
