//! The withdrawal-bundle lifecycle, and the read-only projections.
//!
//! Pending withdrawals — the recorded ones without a refund — are packed
//! into one bundle, ordered by outpoint ascending, with their fees
//! aggregated; an equivalent bundle already in flight is never broadcast
//! twice.  The broadcast itself is outside work: the caller submits the
//! returned bundle and reports back whether the mainchain node accepted it.

use vstd::prelude::*;
use crate::errors::BridgeError;
use crate::hexcodec::copy_bytes;
use crate::order::bytes_cmp;
use crate::state::{Deposit, Drivechain, StoreView, WithdrawalData, WithdrawalView};
use crate::table::{tbl_contains, tbl_view, tbl_has, batch_keys};
use crate::hexcodec::{valid_hex, hex_bytes, hex_decode};

verus! {

/// The entries of `wds` whose key has no entry in `rfs`, in order.
pub open spec fn pending_of(
    wds: Seq<(Seq<u8>, WithdrawalView)>,
    rfs: Seq<(Seq<u8>, u64)>,
) -> Seq<(Seq<u8>, WithdrawalView)>
    decreases wds.len(),
{
    if wds.len() == 0 {
        wds
    } else {
        let rest = pending_of(wds.drop_last(), rfs);
        if !tbl_contains(rfs, wds.last().0) {
            rest.push(wds.last())
        } else {
            rest
        }
    }
}

/// The withdrawals of the store that are still pending: recorded and not
/// refunded, in outpoint order.
pub open spec fn pending_wds(s: StoreView) -> Seq<(Seq<u8>, WithdrawalView)> {
    pending_of(s.withdrawals, s.refunds)
}

/// The exact fee total of a batch of withdrawals.
pub open spec fn sum_fees(s: Seq<(Seq<u8>, WithdrawalView)>) -> int
    decreases s.len(),
{
    if s.len() == 0 {
        0
    } else {
        sum_fees(s.drop_last()) + s.last().1.mainchain_fee
    }
}

/// A property of every withdrawal survives the pending selection.
proof fn lemma_pending_entry_prop(
    wds: Seq<(Seq<u8>, WithdrawalView)>,
    rfs: Seq<(Seq<u8>, u64)>,
    p: spec_fn((Seq<u8>, WithdrawalView)) -> bool,
)
    requires
        forall|i: int| 0 <= i < wds.len() ==> p(#[trigger] wds[i]),
    ensures
        forall|i: int| 0 <= i < pending_of(wds, rfs).len() ==> p(#[trigger] pending_of(wds, rfs)[i]),
    decreases wds.len(),
{
    if wds.len() > 0 {
        assert(forall|i: int|
            0 <= i < wds.len() - 1 ==> #[trigger] wds.drop_last()[i] == wds[i]);
        lemma_pending_entry_prop(wds.drop_last(), rfs, p);
        let rest = pending_of(wds.drop_last(), rfs);
        assert(p(wds[wds.len() - 1]));
        assert forall|i: int| 0 <= i < pending_of(wds, rfs).len() implies p(
            #[trigger] pending_of(wds, rfs)[i],
        ) by {
            if !tbl_contains(rfs, wds.last().0) && i == rest.len() {
                assert(pending_of(wds, rfs)[i] == wds.last());
            } else {
                assert(pending_of(wds, rfs)[i] == rest[i]);
            }
        }
    }
}

/// The pending selection of a sorted withdrawal table is itself sorted by
/// outpoint, ascending: a bundle lists its withdrawals in that order.
pub proof fn lemma_pending_sorted(wds: Seq<(Seq<u8>, WithdrawalView)>, rfs: Seq<(Seq<u8>, u64)>)
    requires
        crate::table::tbl_sorted(wds),
    ensures
        crate::table::tbl_sorted(pending_of(wds, rfs)),
    decreases wds.len(),
{
    if wds.len() > 0 {
        assert(forall|i: int|
            0 <= i < wds.len() - 1 ==> #[trigger] wds.drop_last()[i] == wds[i]);
        lemma_pending_sorted(wds.drop_last(), rfs);
        let rest = pending_of(wds.drop_last(), rfs);
        let last = wds.last();
        let p = |e: (Seq<u8>, WithdrawalView)| crate::order::lex_lt(e.0, last.0);
        assert forall|i: int| 0 <= i < wds.drop_last().len() implies p(
            #[trigger] wds.drop_last()[i],
        ) by {
            assert(wds.drop_last()[i] == wds[i]);
            assert(crate::order::lex_lt(wds[i].0, wds[wds.len() - 1].0));
        }
        lemma_pending_entry_prop(wds.drop_last(), rfs, p);
        if !tbl_contains(rfs, last.0) {
            let t = rest.push(last);
            assert forall|i: int, j: int| 0 <= i < j < t.len() implies crate::order::lex_lt(
                (#[trigger] t[i]).0,
                (#[trigger] t[j]).0,
            ) by {
                if j == t.len() - 1 {
                    assert(t[i] == rest[i]);
                    assert(p(rest[i]));
                } else {
                    assert(t[i] == rest[i] && t[j] == rest[j]);
                }
            }
        }
    }
}

/// A fee total is never negative.
proof fn lemma_sum_fees_nonneg(s: Seq<(Seq<u8>, WithdrawalView)>)
    ensures
        sum_fees(s) >= 0,
    decreases s.len(),
{
    if s.len() > 0 {
        lemma_sum_fees_nonneg(s.drop_last());
    }
}

/// The fee total a bundle carries: the exact total, saturated at `u64::MAX`.
pub open spec fn sat_sum_fees(s: Seq<(Seq<u8>, WithdrawalView)>) -> u64 {
    if sum_fees(s) > u64::MAX {
        u64::MAX
    } else {
        sum_fees(s) as u64
    }
}

/// How many records the store holds: deposits, withdrawals and refunds.
pub open spec fn record_count(s: StoreView) -> int {
    s.deposits.len() + s.withdrawals.len() + s.refunds.len() as int
}

/// The count a checkpoint reports: the record count, saturated at
/// `usize::MAX`.
pub open spec fn sat_record_count(s: StoreView) -> usize {
    if record_count(s) > usize::MAX {
        usize::MAX
    } else {
        record_count(s) as usize
    }
}

/// A bundle ready for broadcast: the pending withdrawals in outpoint order
/// and their aggregate mainchain fee.
pub struct WithdrawalBundle {
    /// The bundled withdrawals, keyed by outpoint, ascending.
    pub entries: Vec<(Vec<u8>, WithdrawalData)>,
    /// The aggregate mainchain fee, saturated at `u64::MAX`.
    pub total_fee: u64,
}

impl Drivechain {
    /// Collect the pending withdrawals into a bundle for broadcast.
    ///
    /// `Err(NoPendingWithdrawals)` signals an empty pending set: a no-op,
    /// nothing recorded, nothing to broadcast.  `Ok(None)` means an
    /// equivalent bundle — the same withdrawal set — is already in flight,
    /// so no duplicate broadcast is issued.  `Ok(Some(bundle))` hands the
    /// caller the bundle to submit and records its outpoint set as in
    /// flight.
    #[verifier::loop_isolation(false)]
    pub fn attempt_bundle_broadcast(&mut self) -> (r: Result<Option<WithdrawalBundle>, BridgeError>)
        requires
            old(self)@.wf(),
        ensures
            final(self)@.wf(),
            ({
                let s0 = old(self)@;
                let pend = pending_wds(s0);
                match r {
                    Err(e) => e == BridgeError::NoPendingWithdrawals && pend.len() == 0 && final(self)@ == s0,
                    Ok(opt) => pend.len() > 0 && match opt {
                        None => s0.in_flight == Some(batch_keys(pend)) && final(self)@ == s0,
                        Some(b) => s0.in_flight != Some(batch_keys(pend)) && tbl_view(b.entries@)
                            == pend && crate::table::tbl_sorted(tbl_view(b.entries@))
                            && b.total_fee == sat_sum_fees(pend) && final(self)@
                            == (StoreView { in_flight: Some(batch_keys(pend)), ..s0 }),
                    },
                }
            }),
    {
        let ghost s0 = self@;
        let mut entries: Vec<(Vec<u8>, WithdrawalData)> = Vec::new();
        let mut fee: u64 = 0;
        let mut i: usize = 0;
        while i < self.withdrawals.len()
            invariant
                0 <= i <= self.withdrawals@.len(),
                tbl_view(entries@) == pending_of(s0.withdrawals.take(i as int), s0.refunds),
                fee == sat_sum_fees(tbl_view(entries@)),
            decreases self.withdrawals@.len() - i,
        {
            let ghost before = tbl_view(entries@);
            proof {
                assert(s0.withdrawals.take(i + 1).drop_last() =~= s0.withdrawals.take(i as int));
                assert(s0.withdrawals.take(i + 1).last() == s0.withdrawals[i as int]);
                assert(s0.withdrawals[i as int] == (self.withdrawals@[i as int].0@,
                    self.withdrawals@[i as int].1@));
            }
            let e = &self.withdrawals[i];
            if !tbl_has(&self.refunds, &e.0) {
                let item = (
                    copy_bytes(&e.0),
                    WithdrawalData {
                        dest: copy_bytes(&e.1.dest),
                        amount: e.1.amount,
                        mainchain_fee: e.1.mainchain_fee,
                        height: e.1.height,
                    },
                );
                let f = e.1.mainchain_fee;
                entries.push(item);
                fee = if fee > u64::MAX - f {
                    u64::MAX
                } else {
                    fee + f
                };
                proof {
                    assert(!tbl_contains(s0.refunds, s0.withdrawals[i as int].0));
                    assert(tbl_view(entries@) =~= before.push(s0.withdrawals[i as int]));
                    assert(tbl_view(entries@) == pending_of(
                        s0.withdrawals.take(i + 1),
                        s0.refunds,
                    ));
                    assert(tbl_view(entries@).drop_last() =~= before);
                    assert(tbl_view(entries@).last() == s0.withdrawals[i as int]);
                    assert(sum_fees(tbl_view(entries@)) == sum_fees(before) + f);
                    lemma_sum_fees_nonneg(before);
                }
            } else {
                proof {
                    assert(tbl_contains(s0.refunds, s0.withdrawals[i as int].0));
                    assert(tbl_view(entries@) == pending_of(
                        s0.withdrawals.take(i + 1),
                        s0.refunds,
                    ));
                }
            }
            i += 1;
        }
        proof {
            assert(s0.withdrawals.take(s0.withdrawals.len() as int) =~= s0.withdrawals);
            assert(tbl_view(entries@) == pending_wds(s0));
        }
        if entries.len() == 0 {
            return Err(BridgeError::NoPendingWithdrawals);
        }
        let ghost pend = pending_wds(s0);
        let same = match &self.in_flight {
            Some(ks) => {
                if ks.len() != entries.len() {
                    false
                } else {
                    let mut eq = true;
                    let mut j: usize = 0;
                    while eq && j < ks.len()
                        invariant
                            0 <= j <= ks@.len(),
                            ks@.len() == entries@.len(),
                            self.in_flight == old(self).in_flight,
                            s0.in_flight matches Some(kv) && kv == ks@.map_values(
                                |o: Vec<u8>| o@,
                            ),
                            eq ==> forall|m: int|
                                0 <= m < j ==> ks@.map_values(|o: Vec<u8>| o@)[m] == batch_keys(
                                    pend,
                                )[m],
                            !eq ==> s0.in_flight != Some(batch_keys(pend)),
                        decreases ks@.len() - j, if eq { 1int } else { 0int },
                    {
                        if bytes_cmp(&ks[j], &entries[j].0) == 1 {
                            proof {
                                assert(ks@.map_values(|o: Vec<u8>| o@)[j as int] == batch_keys(
                                    pend,
                                )[j as int]);
                            }
                            j += 1;
                        } else {
                            proof {
                                let kv = ks@.map_values(|o: Vec<u8>| o@);
                                assert(kv[j as int] != batch_keys(pend)[j as int]);
                                if kv == batch_keys(pend) {
                                    assert(false);
                                }
                            }
                            eq = false;
                        }
                    }
                    proof {
                        if eq {
                            assert(ks@.map_values(|o: Vec<u8>| o@) =~= batch_keys(pend));
                        }
                    }
                    eq
                }
            },
            None => false,
        };
        proof {
            if same {
            } else if s0.in_flight is Some {
            }
        }
        if same {
            return Ok(None);
        }
        let mut keys: Vec<Vec<u8>> = Vec::new();
        let mut j: usize = 0;
        while j < entries.len()
            invariant
                0 <= j <= entries@.len(),
                tbl_view(entries@) == pend,
                keys@.map_values(|o: Vec<u8>| o@) =~= batch_keys(pend).take(j as int),
                self == old(self),
            decreases entries@.len() - j,
        {
            keys.push(copy_bytes(&entries[j].0));
            proof {
                assert(keys@.map_values(|o: Vec<u8>| o@) =~= batch_keys(pend).take(j + 1));
            }
            j += 1;
        }
        proof {
            assert(keys@.map_values(|o: Vec<u8>| o@) =~= batch_keys(pend));
        }
        self.in_flight = Some(keys);
        proof {
            assert(self@ =~~= (StoreView { in_flight: Some(batch_keys(pend)), ..s0 }));
            lemma_pending_sorted(s0.withdrawals, s0.refunds);
        }
        Ok(Some(WithdrawalBundle { entries, total_fee: fee }))
    }

    /// Record the mainchain node's verdict on the bundle just broadcast.
    ///
    /// Acceptance keeps the bundle in flight; rejection surfaces
    /// `BroadcastRejected` and clears the in-flight mark so that the still
    /// pending withdrawals can be rebundled and retried with an adjusted
    /// fee.
    pub fn record_bundle_broadcast(&mut self, accepted: bool) -> (r: Result<(), BridgeError>)
        requires
            old(self)@.wf(),
        ensures
            final(self)@.wf(),
            accepted ==> r is Ok && final(self)@ == old(self)@,
            !accepted ==> r == Err::<(), BridgeError>(BridgeError::BroadcastRejected) && final(self)@ == (StoreView { in_flight: None, ..old(self)@ }),
    {
        if accepted {
            Ok(())
        } else {
            self.in_flight = None;
            proof {
                assert(self@ =~~= (StoreView { in_flight: None, ..old(self)@ }));
            }
            Err(BridgeError::BroadcastRejected)
        }
    }

    /// A snapshot of every recorded deposit, in insertion order.
    pub fn get_deposit_outputs(&self) -> (r: Vec<Deposit>)
        ensures
            r@.len() == self@.deposits.len(),
            forall|i: int| 0 <= i < r@.len() ==> (#[trigger] r@[i])@ == self@.deposits[i],
    {
        let mut out: Vec<Deposit> = Vec::new();
        let mut i: usize = 0;
        while i < self.deposits.len()
            invariant
                0 <= i <= self.deposits@.len(),
                out@.len() == i,
                forall|j: int| 0 <= j < i ==> (#[trigger] out@[j])@ == self@.deposits[j],
            decreases self.deposits@.len() - i,
        {
            let d = &self.deposits[i];
            out.push(Deposit { address: d.address.clone(), amount: d.amount });
            i += 1;
        }
        out
    }

    /// Whether the outpoint, given in hex, is marked spent: exactly when a
    /// recorded withdrawal claims it.  Malformed hex is `InvalidOutpoint`.
    pub fn is_outpoint_spent(&self, outpoint: &str) -> (r: Result<bool, BridgeError>)
        ensures
            (r is Ok) == valid_hex(outpoint@),
            r matches Ok(b) ==> b == self@.spent(hex_bytes(outpoint@)),
            r matches Err(e) ==> e == BridgeError::InvalidOutpoint,
    {
        match hex_decode(outpoint) {
            Some(o) => Ok(tbl_has(&self.withdrawals, &o)),
            None => Err(BridgeError::InvalidOutpoint),
        }
    }

    /// A durability checkpoint: reports how many records — deposits,
    /// withdrawals and refunds — the store currently holds, and changes
    /// nothing.  Persistence of those records is the embedder's concern.
    pub fn flush(&mut self) -> (r: usize)
        requires
            old(self)@.wf(),
        ensures
            final(self)@ == old(self)@,
            r == sat_record_count(old(self)@),
    {
        let a = self.deposits.len();
        let b = self.withdrawals.len();
        let c = self.refunds.len();
        let ab = if a > usize::MAX - b {
            usize::MAX
        } else {
            a + b
        };
        if ab > usize::MAX - c {
            usize::MAX
        } else {
            ab + c
        }
    }
}

/// The bundle no-op law: with an empty pending-withdrawal set there is
/// nothing to bundle — `pending_wds` of a store is empty exactly when no
/// recorded withdrawal lacks a refund.
pub proof fn lemma_bundle_noop(s: StoreView)
    ensures
        (pending_wds(s).len() == 0) <==> (forall|i: int|
            0 <= i < s.withdrawals.len() ==> tbl_contains(
                s.refunds,
                (#[trigger] s.withdrawals[i]).0,
            )),
{
    lemma_pending_empty(s.withdrawals, s.refunds);
}

/// `pending_of` is empty exactly when every withdrawal key has a refund.
proof fn lemma_pending_empty(wds: Seq<(Seq<u8>, WithdrawalView)>, rfs: Seq<(Seq<u8>, u64)>)
    ensures
        (pending_of(wds, rfs).len() == 0) <==> (forall|i: int|
            0 <= i < wds.len() ==> tbl_contains(rfs, (#[trigger] wds[i]).0)),
    decreases wds.len(),
{
    if wds.len() == 0 {
    } else {
        lemma_pending_empty(wds.drop_last(), rfs);
        assert(forall|i: int| 0 <= i < wds.len() - 1 ==> #[trigger] wds.drop_last()[i] == wds[i]);
        assert(wds.last() == wds[wds.len() - 1]);
        if pending_of(wds, rfs).len() == 0 {
            assert(tbl_contains(rfs, wds.last().0));
            assert(pending_of(wds.drop_last(), rfs).len() == 0);
            assert forall|i: int| 0 <= i < wds.len() implies tbl_contains(
                rfs,
                (#[trigger] wds[i]).0,
            ) by {
                if i < wds.len() - 1 {
                    assert(tbl_contains(rfs, wds.drop_last()[i].0));
                }
            }
        }
        if forall|i: int| 0 <= i < wds.len() ==> tbl_contains(rfs, (#[trigger] wds[i]).0) {
            assert forall|i: int| 0 <= i < wds.drop_last().len() implies tbl_contains(
                rfs,
                (#[trigger] wds.drop_last()[i]).0,
            ) by {
                assert(wds.drop_last()[i] == wds[i]);
            }
            assert(tbl_contains(rfs, wds.last().0));
            assert(pending_of(wds, rfs).len() == 0);
        }
    }
}

} // verus!
