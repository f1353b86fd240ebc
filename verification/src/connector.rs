//! Connecting and disconnecting mainchain blocks.
//!
//! A connected block contributes a batch of deposits, withdrawals and
//! refunds.  Connecting inserts the batch into the store inside one
//! all-or-nothing transaction; disconnecting the same batch restores the
//! previous store exactly, which is what a mainchain reorganization relies
//! on.  `lemma_connect_then_disconnect` states that inversion once and for
//! all, and `lemma_double_spend_rejected` that a batch claiming one outpoint
//! twice is refused whole.

use vstd::prelude::*;
use crate::errors::BridgeError;
use crate::order::bytes_cmp;
use crate::hexcodec::{valid_hex, hex_bytes, hex_decode};
use crate::state::{Deposit, DepositView, WithdrawalData, WithdrawalView, Drivechain, StoreView};
use crate::table::{
    tbl_contains, tbl_sorted, tbl_view, tinsert, tremove, tinsert_all, tremove_all, batch_keys,
    batch_distinct, tbl_has, tbl_insert, tbl_remove, lemma_tinsert_all_contains,
    lemma_tinsert_all_sorted, lemma_tremove_all_tinsert_all, lemma_tremove_contains,
    lemma_tremove_sorted,
};

verus! {

/// A withdrawal as it crosses the boundary: outpoint and destination as hex
/// strings.  The inclusion height is deliberately absent; the engine assigns
/// it on connect.
pub struct WithdrawalRequest {
    /// Hex-encoded outpoint claimed by the withdrawal.
    pub outpoint: String,
    /// Hex-encoded 20-byte mainchain destination payload.
    pub main_address: String,
    /// Fee offered to the mainchain, in satoshi.
    pub main_fee: u64,
    /// Amount withdrawn, in satoshi.
    pub amount: u64,
}

/// The view of a withdrawal request.
#[verifier::ext_equal]
pub ghost struct WithdrawalRequestView {
    pub outpoint: Seq<char>,
    pub main_address: Seq<char>,
    pub main_fee: u64,
    pub amount: u64,
}

impl View for WithdrawalRequest {
    type V = WithdrawalRequestView;

    open spec fn view(&self) -> WithdrawalRequestView {
        WithdrawalRequestView {
            outpoint: self.outpoint@,
            main_address: self.main_address@,
            main_fee: self.main_fee,
            amount: self.amount,
        }
    }
}

/// A refund as it crosses the boundary.
pub struct RefundRequest {
    /// Hex-encoded outpoint of the refunded withdrawal.
    pub outpoint: String,
    /// Amount credited back, in satoshi.
    pub amount: u64,
}

/// The view of a refund request.
#[verifier::ext_equal]
pub ghost struct RefundRequestView {
    pub outpoint: Seq<char>,
    pub amount: u64,
}

impl View for RefundRequest {
    type V = RefundRequestView;

    open spec fn view(&self) -> RefundRequestView {
        RefundRequestView { outpoint: self.outpoint@, amount: self.amount }
    }
}

/// Whether a withdrawal request's two hex fields decode, the destination to
/// exactly 20 bytes.
pub open spec fn wd_req_ok(w: WithdrawalRequestView) -> bool {
    &&& valid_hex(w.outpoint)
    &&& valid_hex(w.main_address)
    &&& hex_bytes(w.main_address).len() == 20
}

/// The first parse failure among the withdrawal requests, scanned in order:
/// a malformed outpoint before a malformed destination of the same request.
pub open spec fn wd_parse_error(ws: Seq<WithdrawalRequestView>) -> Option<BridgeError>
    decreases ws.len(),
{
    if ws.len() == 0 {
        None
    } else if !valid_hex(ws[0].outpoint) {
        Some(BridgeError::InvalidOutpoint)
    } else if !(valid_hex(ws[0].main_address) && hex_bytes(ws[0].main_address).len() == 20) {
        Some(BridgeError::InvalidAddress)
    } else {
        wd_parse_error(ws.drop_first())
    }
}

/// The first parse failure among a list of hex-encoded outpoints.
pub open spec fn keys_parse_error(ss: Seq<Seq<char>>) -> Option<BridgeError>
    decreases ss.len(),
{
    if ss.len() == 0 {
        None
    } else if !valid_hex(ss[0]) {
        Some(BridgeError::InvalidOutpoint)
    } else {
        keys_parse_error(ss.drop_first())
    }
}

/// The decoded withdrawal batch, every entry carrying the height the
/// connecting block will have.
pub open spec fn decoded_wds(ws: Seq<WithdrawalRequestView>, h: u64) -> Seq<
    (Seq<u8>, WithdrawalView),
> {
    ws.map_values(
        |w: WithdrawalRequestView|
            (
                hex_bytes(w.outpoint),
                WithdrawalView {
                    dest: hex_bytes(w.main_address),
                    amount: w.amount,
                    mainchain_fee: w.main_fee,
                    height: h,
                },
            ),
    )
}

/// The decoded refund batch.
pub open spec fn decoded_rfs(rs: Seq<RefundRequestView>) -> Seq<(Seq<u8>, u64)> {
    rs.map_values(|r: RefundRequestView| (hex_bytes(r.outpoint), r.amount))
}

/// The decoded outpoint list of a disconnect batch.
pub open spec fn decoded_keys(ss: Seq<Seq<char>>) -> Seq<Seq<u8>> {
    ss.map_values(|s: Seq<char>| hex_bytes(s))
}

/// Whether the keys of a list are pairwise distinct.
pub open spec fn keys_distinct(ks: Seq<Seq<u8>>) -> bool {
    forall|i: int, j: int| 0 <= i < j < ks.len() ==> ks[i] != ks[j]
}

/// Whether a decoded batch may be connected to `s`: every withdrawal claims
/// an outpoint never seen before (not spent, claimed once in the batch),
/// every refund names a recorded withdrawal that has not been refunded yet,
/// and the height counter can still advance.
pub open spec fn connect_ok(
    s: StoreView,
    wds: Seq<(Seq<u8>, WithdrawalView)>,
    rfs: Seq<(Seq<u8>, u64)>,
) -> bool {
    &&& batch_distinct(wds)
    &&& batch_distinct(rfs)
    &&& forall|i: int| 0 <= i < wds.len() ==> !s.spent((#[trigger] wds[i]).0)
    &&& forall|i: int|
        0 <= i < rfs.len() ==> tbl_contains(s.withdrawals, (#[trigger] rfs[i]).0)
            && !tbl_contains(s.refunds, rfs[i].0)
    &&& s.height < u64::MAX
}

/// The store after connecting a decoded batch.
pub open spec fn connect_apply(
    s: StoreView,
    deps: Seq<DepositView>,
    wds: Seq<(Seq<u8>, WithdrawalView)>,
    rfs: Seq<(Seq<u8>, u64)>,
) -> StoreView {
    StoreView {
        deposits: s.deposits + deps,
        withdrawals: tinsert_all(s.withdrawals, wds),
        refunds: tinsert_all(s.refunds, rfs),
        height: next_height(s.height),
        ..s
    }
}

/// Whether a disconnect batch matches `s`: the named refunds and
/// withdrawals are recorded (a withdrawal only falls once its refund does),
/// the deposits are exactly the ones on top of the deposit list, and there
/// is a connected block to retreat from.
pub open spec fn disconnect_ok(
    s: StoreView,
    deps: Seq<DepositView>,
    wd_keys: Seq<Seq<u8>>,
    rf_keys: Seq<Seq<u8>>,
) -> bool {
    &&& keys_distinct(wd_keys)
    &&& keys_distinct(rf_keys)
    &&& forall|i: int| 0 <= i < rf_keys.len() ==> tbl_contains(s.refunds, #[trigger] rf_keys[i])
    &&& forall|i: int|
        0 <= i < wd_keys.len() ==> tbl_contains(s.withdrawals, #[trigger] wd_keys[i]) && (
        !tbl_contains(s.refunds, wd_keys[i]) || rf_keys.contains(wd_keys[i]))
    &&& deps.len() <= s.deposits.len()
    &&& s.deposits.skip(s.deposits.len() - deps.len()) == deps
    &&& s.height > 0
}

/// The store after disconnecting a batch.
pub open spec fn disconnect_apply(
    s: StoreView,
    deps: Seq<DepositView>,
    wd_keys: Seq<Seq<u8>>,
    rf_keys: Seq<Seq<u8>>,
) -> StoreView {
    StoreView {
        deposits: s.deposits.take(s.deposits.len() - deps.len()),
        withdrawals: tremove_all(s.withdrawals, wd_keys),
        refunds: tremove_all(s.refunds, rf_keys),
        height: (s.height - 1) as u64,
        ..s
    }
}

/// A clean scanned prefix moves the parse-error scan past it.
proof fn lemma_wd_parse_error_skip(ws: Seq<WithdrawalRequestView>, i: int)
    requires
        0 <= i <= ws.len(),
        forall|j: int| 0 <= j < i ==> wd_req_ok(#[trigger] ws[j]),
    ensures
        wd_parse_error(ws) == wd_parse_error(ws.skip(i)),
    decreases i,
{
    if i == 0 {
        assert(ws.skip(0) =~= ws);
    } else {
        assert(wd_req_ok(ws[0]));
        assert(forall|j: int|
            0 <= j < i - 1 ==> #[trigger] ws.drop_first()[j] == ws[j + 1]);
        lemma_wd_parse_error_skip(ws.drop_first(), i - 1);
        assert(ws.drop_first().skip(i - 1) =~= ws.skip(i));
    }
}

/// A clean scanned prefix moves the outpoint-list scan past it.
proof fn lemma_keys_parse_error_skip(ss: Seq<Seq<char>>, i: int)
    requires
        0 <= i <= ss.len(),
        forall|j: int| 0 <= j < i ==> valid_hex(#[trigger] ss[j]),
    ensures
        keys_parse_error(ss) == keys_parse_error(ss.skip(i)),
    decreases i,
{
    if i == 0 {
        assert(ss.skip(0) =~= ss);
    } else {
        assert(forall|j: int|
            0 <= j < i - 1 ==> #[trigger] ss.drop_first()[j] == ss[j + 1]);
        lemma_keys_parse_error_skip(ss.drop_first(), i - 1);
        assert(ss.drop_first().skip(i - 1) =~= ss.skip(i));
    }
}

/// The height the next connected block will carry.
pub open spec fn next_height(h: u64) -> u64 {
    if h == u64::MAX {
        0
    } else {
        (h + 1) as u64
    }
}

/// The first parse failure of a connect batch: withdrawals first, then
/// refund outpoints.
pub open spec fn batch_parse_error(
    wv: Seq<WithdrawalRequestView>,
    rv: Seq<RefundRequestView>,
) -> Option<BridgeError> {
    if wd_parse_error(wv) is Some {
        wd_parse_error(wv)
    } else {
        keys_parse_error(rv.map_values(|x: RefundRequestView| x.outpoint))
    }
}

/// Decode a withdrawal batch, or report its first parse failure.
fn parse_wd_batch(withdrawals: &Vec<WithdrawalRequest>, h: u64) -> (r: Result<
    Vec<(Vec<u8>, WithdrawalData)>,
    BridgeError,
>)
    ensures
        ({
            let wv = withdrawals@.map_values(|w: WithdrawalRequest| w@);
            match r {
                Ok(items) => wd_parse_error(wv) is None && tbl_view(items@) == decoded_wds(wv, h)
                    && forall|i: int| 0 <= i < wv.len() ==> wd_req_ok(#[trigger] wv[i]),
                Err(e) => wd_parse_error(wv) == Some(e),
            }
        }),
{
    let ghost wv = withdrawals@.map_values(|w: WithdrawalRequest| w@);
    let mut items: Vec<(Vec<u8>, WithdrawalData)> = Vec::new();
    let mut i: usize = 0;
    while i < withdrawals.len()
        invariant
            0 <= i <= withdrawals@.len(),
            wv == withdrawals@.map_values(|w: WithdrawalRequest| w@),
            forall|j: int| 0 <= j < i ==> wd_req_ok(#[trigger] wv[j]),
            tbl_view(items@) =~= decoded_wds(wv, h).take(i as int),
        decreases withdrawals@.len() - i,
    {
        let w = &withdrawals[i];
        let o = match hex_decode(w.outpoint.as_str()) {
            Some(o) => o,
            None => {
                proof {
                    lemma_wd_parse_error_skip(wv, i as int);
                    assert(wv.skip(i as int)[0] == wv[i as int]);
                }
                return Err(BridgeError::InvalidOutpoint);
            },
        };
        let dest = match hex_decode(w.main_address.as_str()) {
            Some(d) => d,
            None => {
                proof {
                    lemma_wd_parse_error_skip(wv, i as int);
                    assert(wv.skip(i as int)[0] == wv[i as int]);
                }
                return Err(BridgeError::InvalidAddress);
            },
        };
        if dest.len() != 20 {
            proof {
                lemma_wd_parse_error_skip(wv, i as int);
                assert(wv.skip(i as int)[0] == wv[i as int]);
            }
            return Err(BridgeError::InvalidAddress);
        }
        let data = WithdrawalData { dest, amount: w.amount, mainchain_fee: w.main_fee, height: h };
        items.push((o, data));
        proof {
            assert(wv.len() == withdrawals@.len());
            assert(decoded_wds(wv, h).len() == wv.len());
            assert(decoded_wds(wv, h).take(i as int).len() == i as int);
            assert(items@.len() == i + 1);
            assert(tbl_view(items@)[i as int] == (items@[i as int].0@, items@[i as int].1@));
            assert(tbl_view(items@) =~= decoded_wds(wv, h).take(i + 1));
        }
        i += 1;
    }
    proof {
        lemma_wd_parse_error_skip(wv, wv.len() as int);
        assert(wv.skip(wv.len() as int) =~= Seq::<WithdrawalRequestView>::empty());
        assert(tbl_view(items@) =~= decoded_wds(wv, h));
    }
    Ok(items)
}

/// Decode a refund batch, or report its first parse failure.
fn parse_rf_batch(refunds: &Vec<RefundRequest>) -> (r: Result<Vec<(Vec<u8>, u64)>, BridgeError>)
    ensures
        ({
            let rv = refunds@.map_values(|x: RefundRequest| x@);
            match r {
                Ok(items) => keys_parse_error(rv.map_values(|x: RefundRequestView| x.outpoint))
                    is None && tbl_view(items@) == decoded_rfs(rv),
                Err(e) => keys_parse_error(rv.map_values(|x: RefundRequestView| x.outpoint))
                    == Some(e),
            }
        }),
{
    let ghost rv = refunds@.map_values(|x: RefundRequest| x@);
    let ghost ss = rv.map_values(|x: RefundRequestView| x.outpoint);
    let mut items: Vec<(Vec<u8>, u64)> = Vec::new();
    let mut i: usize = 0;
    while i < refunds.len()
        invariant
            0 <= i <= refunds@.len(),
            rv == refunds@.map_values(|x: RefundRequest| x@),
            ss == rv.map_values(|x: RefundRequestView| x.outpoint),
            ss.len() == rv.len(),
            forall|j: int| 0 <= j < i ==> valid_hex(#[trigger] ss[j]),
            tbl_view(items@) =~= decoded_rfs(rv).take(i as int),
        decreases refunds@.len() - i,
    {
        let x = &refunds[i];
        let o = match hex_decode(x.outpoint.as_str()) {
            Some(o) => o,
            None => {
                proof {
                    lemma_keys_parse_error_skip(ss, i as int);
                    assert(ss.skip(i as int)[0] == ss[i as int]);
                }
                return Err(BridgeError::InvalidOutpoint);
            },
        };
        items.push((o, x.amount));
        proof {
            assert(rv.len() == refunds@.len());
            assert(decoded_rfs(rv).len() == rv.len());
            assert(decoded_rfs(rv).take(i as int).len() == i as int);
            assert(items@.len() == i + 1);
            assert(tbl_view(items@)[i as int] == (items@[i as int].0@, items@[i as int].1@));
            assert(tbl_view(items@) =~= decoded_rfs(rv).take(i + 1));
        }
        i += 1;
    }
    proof {
        lemma_keys_parse_error_skip(ss, ss.len() as int);
        assert(ss.skip(ss.len() as int) =~= Seq::<Seq<char>>::empty());
        assert(tbl_view(items@) =~= decoded_rfs(rv));
    }
    Ok(items)
}

/// Decode a list of hex outpoints, or report its first parse failure.
fn parse_key_batch(list: &Vec<String>) -> (r: Result<Vec<Vec<u8>>, BridgeError>)
    ensures
        ({
            let sv = list@.map_values(|s: String| s@);
            match r {
                Ok(ks) => keys_parse_error(sv) is None && ks@.map_values(|k: Vec<u8>| k@)
                    == decoded_keys(sv),
                Err(e) => keys_parse_error(sv) == Some(e),
            }
        }),
{
    let ghost sv = list@.map_values(|s: String| s@);
    let mut ks: Vec<Vec<u8>> = Vec::new();
    let mut i: usize = 0;
    while i < list.len()
        invariant
            0 <= i <= list@.len(),
            sv == list@.map_values(|s: String| s@),
            forall|j: int| 0 <= j < i ==> valid_hex(#[trigger] sv[j]),
            ks@.map_values(|k: Vec<u8>| k@) =~= decoded_keys(sv).take(i as int),
        decreases list@.len() - i,
    {
        let o = match hex_decode(list[i].as_str()) {
            Some(o) => o,
            None => {
                proof {
                    lemma_keys_parse_error_skip(sv, i as int);
                    assert(sv.skip(i as int)[0] == sv[i as int]);
                }
                return Err(BridgeError::InvalidOutpoint);
            },
        };
        ks.push(o);
        proof {
            assert(sv.len() == list@.len());
            assert(decoded_keys(sv).len() == sv.len());
            assert(decoded_keys(sv).take(i as int).len() == i as int);
            assert(ks@.len() == i + 1);
            assert(ks@[i as int] == o);
            assert(ks@.map_values(|k: Vec<u8>| k@)[i as int] == o@);
            assert(o@ == hex_bytes(sv[i as int]));
            assert(decoded_keys(sv).take(i + 1)[i as int] == hex_bytes(sv[i as int]));
            assert(ks@.map_values(|k: Vec<u8>| k@) =~= decoded_keys(sv).take(i + 1));
        }
        i += 1;
    }
    proof {
        lemma_keys_parse_error_skip(sv, sv.len() as int);
        assert(sv.skip(sv.len() as int) =~= Seq::<Seq<char>>::empty());
        assert(ks@.map_values(|k: Vec<u8>| k@) =~= decoded_keys(sv));
    }
    Ok(ks)
}

impl Drivechain {
    /// Apply one mainchain block's bridge events as a single transaction.
    ///
    /// Deposits are appended in order; each withdrawal must claim a never
    /// before seen outpoint, is recorded with the connecting block's height
    /// and marks its outpoint spent; each refund must name a recorded,
    /// not yet refunded withdrawal.  A malformed hex field is rejected as
    /// `InvalidOutpoint` or `InvalidAddress`, a conflicting batch as
    /// `DoubleSpend`; in both cases, and with `just_check`, nothing is
    /// mutated.  `Ok(true)` means the batch was applied, `Ok(false)` that a
    /// dry run validated it.
    #[verifier::loop_isolation(false)]
    pub fn connect_block(
        &mut self,
        deposits: Vec<Deposit>,
        withdrawals: Vec<WithdrawalRequest>,
        refunds: Vec<RefundRequest>,
        just_check: bool,
    ) -> (r: Result<bool, BridgeError>)
        requires
            old(self)@.wf(),
        ensures
            final(self)@.wf(),
            ({
                let s0 = old(self)@;
                let dv = deposits@.map_values(|d: Deposit| d@);
                let wv = withdrawals@.map_values(|w: WithdrawalRequest| w@);
                let rv = refunds@.map_values(|x: RefundRequest| x@);
                let wd = decoded_wds(wv, next_height(s0.height));
                let rd = decoded_rfs(rv);
                match r {
                    Ok(applied) => {
                        &&& batch_parse_error(wv, rv) is None
                        &&& connect_ok(s0, wd, rd)
                        &&& applied == !just_check
                        &&& if just_check {
                            final(self)@ == s0
                        } else {
                            final(self)@ == connect_apply(s0, dv, wd, rd)
                        }
                    },
                    Err(e) => {
                        &&& final(self)@ == s0
                        &&& match batch_parse_error(wv, rv) {
                            Some(pe) => e == pe,
                            None => e == BridgeError::DoubleSpend && !connect_ok(s0, wd, rd),
                        }
                    },
                }
            }),
    {
        let ghost s0 = self@;
        let ghost dv = deposits@.map_values(|d: Deposit| d@);
        let ghost wv = withdrawals@.map_values(|w: WithdrawalRequest| w@);
        let ghost rv = refunds@.map_values(|x: RefundRequest| x@);
        let h1 = if self.height == u64::MAX {
            0
        } else {
            self.height + 1
        };
        let wd_items = match parse_wd_batch(&withdrawals, h1) {
            Ok(v) => v,
            Err(e) => {
                return Err(e);
            },
        };
        let rf_items = match parse_rf_batch(&refunds) {
            Ok(v) => v,
            Err(e) => {
                return Err(e);
            },
        };
        let ghost wd = decoded_wds(wv, next_height(s0.height));
        let ghost rd = decoded_rfs(rv);
        proof {
            assert(tbl_view(wd_items@) == wd);
            assert(tbl_view(rf_items@) == rd);
        }
        // Validate the whole batch against the untouched store.
        let mut i: usize = 0;
        while i < wd_items.len()
            invariant
                0 <= i <= wd_items@.len(),
                self == old(self),
                s0 == self@,
                wd == tbl_view(wd_items@),
                forall|j1: int, j2: int|
                    0 <= j1 < j2 < i ==> (#[trigger] wd[j1]).0 != (#[trigger] wd[j2]).0,
                forall|j: int| 0 <= j < i ==> !tbl_contains(s0.withdrawals, (#[trigger] wd[j]).0),
            decreases wd_items@.len() - i,
        {
            let mut j: usize = 0;
            while j < i
                invariant
                    0 <= j <= i <= wd_items@.len(),
                    wd == tbl_view(wd_items@),
                    forall|m: int| 0 <= m < j ==> (#[trigger] wd[m]).0 != wd[i as int].0,
                decreases i - j,
            {
                if bytes_cmp(&wd_items[j].0, &wd_items[i].0) == 1 {
                    proof {
                        assert(wd[j as int].0 == wd_items@[j as int].0@);
                        assert(wd[i as int].0 == wd_items@[i as int].0@);
                        assert(!batch_distinct(wd));
                    }
                    return Err(BridgeError::DoubleSpend);
                }
                proof {
                    assert(wd[j as int].0 == wd_items@[j as int].0@);
                    assert(wd[i as int].0 == wd_items@[i as int].0@);
                }
                j += 1;
            }
            if tbl_has(&self.withdrawals, &wd_items[i].0) {
                proof {
                    assert(wd[i as int].0 == wd_items@[i as int].0@);
                    assert(s0.spent(wd[i as int].0));
                }
                return Err(BridgeError::DoubleSpend);
            }
            proof {
                assert(wd[i as int].0 == wd_items@[i as int].0@);
            }
            i += 1;
        }
        let mut i: usize = 0;
        while i < rf_items.len()
            invariant
                0 <= i <= rf_items@.len(),
                self == old(self),
                s0 == self@,
                rd == tbl_view(rf_items@),
                forall|j1: int, j2: int|
                    0 <= j1 < j2 < i ==> (#[trigger] rd[j1]).0 != (#[trigger] rd[j2]).0,
                forall|j: int|
                    0 <= j < i ==> tbl_contains(s0.withdrawals, (#[trigger] rd[j]).0)
                        && !tbl_contains(s0.refunds, rd[j].0),
            decreases rf_items@.len() - i,
        {
            let mut j: usize = 0;
            while j < i
                invariant
                    0 <= j <= i <= rf_items@.len(),
                    rd == tbl_view(rf_items@),
                    forall|m: int| 0 <= m < j ==> (#[trigger] rd[m]).0 != rd[i as int].0,
                decreases i - j,
            {
                if bytes_cmp(&rf_items[j].0, &rf_items[i].0) == 1 {
                    proof {
                        assert(rd[j as int].0 == rf_items@[j as int].0@);
                        assert(rd[i as int].0 == rf_items@[i as int].0@);
                        assert(!batch_distinct(rd));
                    }
                    return Err(BridgeError::DoubleSpend);
                }
                proof {
                    assert(rd[j as int].0 == rf_items@[j as int].0@);
                    assert(rd[i as int].0 == rf_items@[i as int].0@);
                }
                j += 1;
            }
            proof {
                assert(rd[i as int].0 == rf_items@[i as int].0@);
            }
            if !tbl_has(&self.withdrawals, &rf_items[i].0) {
                return Err(BridgeError::DoubleSpend);
            }
            if tbl_has(&self.refunds, &rf_items[i].0) {
                return Err(BridgeError::DoubleSpend);
            }
            i += 1;
        }
        if self.height == u64::MAX {
            return Err(BridgeError::DoubleSpend);
        }
        proof {
            assert(connect_ok(s0, wd, rd));
        }
        if just_check {
            return Ok(false);
        }
        // Apply: insert withdrawals, then refunds, append deposits, advance.
        let mut rest = wd_items;
        while rest.len() > 0
            invariant
                rest@.len() <= wd.len(),
                tbl_view(rest@) =~= wd.skip(wd.len() - rest@.len()),
                tbl_view(self.withdrawals@) == tinsert_all(
                    s0.withdrawals,
                    wd.take(wd.len() - rest@.len()),
                ),
                connect_ok(s0, wd, rd),
                self.deposits == old(self).deposits,
                self.refunds == old(self).refunds,
                self.height == old(self).height,
                self.in_flight == old(self).in_flight,
                self.bmm == old(self).bmm,
                self.sidechain_number == old(self).sidechain_number,
                s0 == old(self)@,
            decreases rest@.len(),
        {
            let ghost k = wd.len() - rest@.len();
            let ghost rest0 = rest@;
            let p = rest.remove(0);
            proof {
                assert(p == rest0[0]);
                assert(tbl_view(rest0)[0] == (p.0@, p.1@));
                assert((p.0@, p.1@) == wd.skip(k as int)[0]);
                assert((p.0@, p.1@) == wd[k as int]);
                assert forall|m: int| 0 <= m < rest@.len() implies tbl_view(rest@)[m] == wd.skip(
                    k + 1,
                )[m] by {
                    assert(rest@[m] == rest0[m + 1]);
                    assert(tbl_view(rest0)[m + 1] == wd.skip(k as int)[m + 1]);
                    assert(wd.skip(k as int)[m + 1] == wd[k + 1 + m]);
                }
                assert(tbl_view(rest@) =~= wd.skip(k + 1));
                lemma_tinsert_all_contains(s0.withdrawals, wd.take(k as int), wd[k as int].0);
                if tbl_contains(wd.take(k as int), wd[k as int].0) {
                    let j = choose|j: int|
                        0 <= j < wd.take(k as int).len() && (#[trigger] wd.take(k as int)[j]).0
                            == wd[k as int].0;
                    assert((wd[j]).0 == (wd[k as int]).0);
                    assert(false);
                }
            }
            tbl_insert(&mut self.withdrawals, p.0, p.1);
            proof {
                assert(wd.take(k + 1).drop_last() =~= wd.take(k as int));
                assert(wd.take(k + 1).last() == wd[k as int]);
                assert(tbl_view(self.withdrawals@) == tinsert_all(s0.withdrawals, wd.take(k + 1)));
            }
        }
        proof {
            assert(wd.take(wd.len() as int) =~= wd);
        }
        let mut rest = rf_items;
        while rest.len() > 0
            invariant
                rest@.len() <= rd.len(),
                tbl_view(rest@) =~= rd.skip(rd.len() - rest@.len()),
                tbl_view(self.refunds@) == tinsert_all(s0.refunds, rd.take(rd.len() - rest@.len())),
                tbl_view(self.withdrawals@) == tinsert_all(s0.withdrawals, wd),
                connect_ok(s0, wd, rd),
                self.deposits == old(self).deposits,
                self.height == old(self).height,
                self.in_flight == old(self).in_flight,
                self.bmm == old(self).bmm,
                self.sidechain_number == old(self).sidechain_number,
                s0 == old(self)@,
            decreases rest@.len(),
        {
            let ghost k = rd.len() - rest@.len();
            let ghost rest0 = rest@;
            let p = rest.remove(0);
            proof {
                assert(p == rest0[0]);
                assert(tbl_view(rest0)[0] == (p.0@, p.1@));
                assert((p.0@, p.1@) == rd.skip(k as int)[0]);
                assert((p.0@, p.1@) == rd[k as int]);
                assert forall|m: int| 0 <= m < rest@.len() implies tbl_view(rest@)[m] == rd.skip(
                    k + 1,
                )[m] by {
                    assert(rest@[m] == rest0[m + 1]);
                    assert(tbl_view(rest0)[m + 1] == rd.skip(k as int)[m + 1]);
                    assert(rd.skip(k as int)[m + 1] == rd[k + 1 + m]);
                }
                assert(tbl_view(rest@) =~= rd.skip(k + 1));
                lemma_tinsert_all_contains(s0.refunds, rd.take(k as int), rd[k as int].0);
                if tbl_contains(rd.take(k as int), rd[k as int].0) {
                    let j = choose|j: int|
                        0 <= j < rd.take(k as int).len() && (#[trigger] rd.take(k as int)[j]).0
                            == rd[k as int].0;
                    assert((rd[j]).0 == (rd[k as int]).0);
                    assert(false);
                }
            }
            tbl_insert(&mut self.refunds, p.0, p.1);
            proof {
                assert(rd.take(k + 1).drop_last() =~= rd.take(k as int));
                assert(rd.take(k + 1).last() == rd[k as int]);
                assert(tbl_view(self.refunds@) == tinsert_all(s0.refunds, rd.take(k + 1)));
            }
        }
        proof {
            assert(rd.take(rd.len() as int) =~= rd);
        }
        let mut deps = deposits;
        self.deposits.append(&mut deps);
        self.height = self.height + 1;
        proof {
            assert(self@.deposits =~= s0.deposits + dv);
            lemma_tinsert_all_sorted(s0.withdrawals, wd);
            lemma_tinsert_all_sorted(s0.refunds, rd);
            let wprime = tinsert_all(s0.withdrawals, wd);
            let pref = |e: (Seq<u8>, u64)| tbl_contains(wprime, e.0);
            assert forall|i: int| 0 <= i < s0.refunds.len() implies pref(#[trigger] s0.refunds[i]) by {
                lemma_tinsert_all_contains(s0.withdrawals, wd, s0.refunds[i].0);
            }
            assert forall|i: int| 0 <= i < rd.len() implies pref(#[trigger] rd[i]) by {
                lemma_tinsert_all_contains(s0.withdrawals, wd, rd[i].0);
            }
            crate::table::lemma_tinsert_all_entry_prop(s0.refunds, rd, pref);
            let p20 = |e: (Seq<u8>, WithdrawalView)| e.1.dest.len() == 20;
            assert forall|i: int| 0 <= i < wd.len() implies p20(#[trigger] wd[i]) by {
                assert(wd_req_ok(wv[i]));
            }
            crate::table::lemma_tinsert_all_entry_prop(s0.withdrawals, wd, p20);
            assert(self@.wf());
            assert(self@ =~~= connect_apply(s0, dv, wd, rd));
        }
        Ok(true)
    }

    /// Undo one connected block exactly, as a single transaction.
    ///
    /// The named refunds and withdrawals are removed (a withdrawal's spent
    /// mark falls with it), and the given deposits — which must be exactly
    /// the ones the block appended — are popped off the deposit list.  A
    /// malformed outpoint is rejected as `InvalidOutpoint`, a batch that does
    /// not match the recorded state as `DoubleSpend`; in both cases, and
    /// with `just_check`, nothing is mutated.  For any batch that
    /// `connect_block` accepted, this restores the prior store exactly
    /// (`lemma_connect_then_disconnect`).
    #[verifier::loop_isolation(false)]
    pub fn disconnect_block(
        &mut self,
        deposits: Vec<Deposit>,
        withdrawals: Vec<String>,
        refunds: Vec<String>,
        just_check: bool,
    ) -> (r: Result<bool, BridgeError>)
        requires
            old(self)@.wf(),
        ensures
            final(self)@.wf(),
            ({
                let s0 = old(self)@;
                let dv = deposits@.map_values(|d: Deposit| d@);
                let wsv = withdrawals@.map_values(|s: String| s@);
                let rsv = refunds@.map_values(|s: String| s@);
                let wk = decoded_keys(wsv);
                let rk = decoded_keys(rsv);
                let perr = if keys_parse_error(wsv) is Some {
                    keys_parse_error(wsv)
                } else {
                    keys_parse_error(rsv)
                };
                match r {
                    Ok(applied) => {
                        &&& perr is None
                        &&& disconnect_ok(s0, dv, wk, rk)
                        &&& applied == !just_check
                        &&& if just_check {
                            final(self)@ == s0
                        } else {
                            final(self)@ == disconnect_apply(s0, dv, wk, rk)
                        }
                    },
                    Err(e) => {
                        &&& final(self)@ == s0
                        &&& match perr {
                            Some(pe) => e == pe,
                            None => e == BridgeError::DoubleSpend && !disconnect_ok(s0, dv, wk, rk),
                        }
                    },
                }
            }),
    {
        let ghost s0 = self@;
        let ghost dv = deposits@.map_values(|d: Deposit| d@);
        let ghost wsv = withdrawals@.map_values(|s: String| s@);
        let ghost rsv = refunds@.map_values(|s: String| s@);
        let ghost wk = decoded_keys(wsv);
        let ghost rk = decoded_keys(rsv);
        let wd_keys = match parse_key_batch(&withdrawals) {
            Ok(v) => v,
            Err(e) => {
                return Err(e);
            },
        };
        let rf_keys = match parse_key_batch(&refunds) {
            Ok(v) => v,
            Err(e) => {
                return Err(e);
            },
        };
        proof {
            assert(wd_keys@.map_values(|k: Vec<u8>| k@) == wk);
            assert(rf_keys@.map_values(|k: Vec<u8>| k@) == rk);
        }
        // Validate the whole batch against the untouched store.
        let mut i: usize = 0;
        while i < rf_keys.len()
            invariant
                0 <= i <= rf_keys@.len(),
                forall|j1: int, j2: int| 0 <= j1 < j2 < i ==> rk[j1] != rk[j2],
                forall|j: int| 0 <= j < i ==> tbl_contains(s0.refunds, #[trigger] rk[j]),
            decreases rf_keys@.len() - i,
        {
            proof {
                assert(rk[i as int] == rf_keys@[i as int]@);
            }
            let mut j: usize = 0;
            while j < i
                invariant
                    0 <= j <= i,
                    forall|m: int| 0 <= m < j ==> rk[m] != rk[i as int],
                decreases i - j,
            {
                proof {
                    assert(rk[j as int] == rf_keys@[j as int]@);
                }
                if bytes_cmp(&rf_keys[j], &rf_keys[i]) == 1 {
                    return Err(BridgeError::DoubleSpend);
                }
                j += 1;
            }
            if !tbl_has(&self.refunds, &rf_keys[i]) {
                return Err(BridgeError::DoubleSpend);
            }
            i += 1;
        }
        let mut i: usize = 0;
        while i < wd_keys.len()
            invariant
                0 <= i <= wd_keys@.len(),
                forall|j1: int, j2: int| 0 <= j1 < j2 < i ==> wk[j1] != wk[j2],
                forall|j: int|
                    0 <= j < i ==> tbl_contains(s0.withdrawals, #[trigger] wk[j]) && (
                    !tbl_contains(s0.refunds, wk[j]) || rk.contains(wk[j])),
            decreases wd_keys@.len() - i,
        {
            proof {
                assert(wk[i as int] == wd_keys@[i as int]@);
            }
            let mut j: usize = 0;
            while j < i
                invariant
                    0 <= j <= i,
                    forall|m: int| 0 <= m < j ==> wk[m] != wk[i as int],
                decreases i - j,
            {
                proof {
                    assert(wk[j as int] == wd_keys@[j as int]@);
                }
                if bytes_cmp(&wd_keys[j], &wd_keys[i]) == 1 {
                    return Err(BridgeError::DoubleSpend);
                }
                j += 1;
            }
            if !tbl_has(&self.withdrawals, &wd_keys[i]) {
                return Err(BridgeError::DoubleSpend);
            }
            if tbl_has(&self.refunds, &wd_keys[i]) {
                let mut found = false;
                let mut j: usize = 0;
                while !found && j < rf_keys.len()
                    invariant
                        0 <= j <= rf_keys@.len(),
                        !found ==> forall|m: int| 0 <= m < j ==> rk[m] != wk[i as int],
                        found ==> rk.contains(wk[i as int]),
                    decreases rf_keys@.len() - j, if found { 0int } else { 1int },
                {
                    proof {
                        assert(rk[j as int] == rf_keys@[j as int]@);
                    }
                    if bytes_cmp(&rf_keys[j], &wd_keys[i]) == 1 {
                        found = true;
                    } else {
                        j += 1;
                    }
                }
                if !found {
                    proof {
                        if rk.contains(wk[i as int]) {
                            let m = choose|m: int| 0 <= m < rk.len() && rk[m] == wk[i as int];
                            assert(false);
                        }
                    }
                    return Err(BridgeError::DoubleSpend);
                }
            }
            i += 1;
        }
        let dn = deposits.len();
        let dm = self.deposits.len();
        if dn > dm {
            return Err(BridgeError::DoubleSpend);
        }
        let mut i: usize = 0;
        while i < dn
            invariant
                0 <= i <= dn,
                dn <= dm,
                dn == dv.len(),
                dm == s0.deposits.len(),
                forall|j: int| 0 <= j < i ==> s0.deposits[dm - dn + j] == #[trigger] dv[j],
            decreases dn - i,
        {
            let a = &self.deposits[dm - dn + i];
            let b = &deposits[i];
            if !(a.address == b.address) || a.amount != b.amount {
                proof {
                    if disconnect_ok(s0, dv, wk, rk) {
                        assert(s0.deposits.skip(dm - dn)[i as int] == dv[i as int]);
                        assert(s0.deposits[dm - dn + i] == dv[i as int]);
                        assert(false);
                    }
                }
                return Err(BridgeError::DoubleSpend);
            }
            proof {
                assert(s0.deposits[dm - dn + i] == dv[i as int]);
            }
            i += 1;
        }
        if self.height == 0 {
            return Err(BridgeError::DoubleSpend);
        }
        proof {
            assert(s0.deposits.skip(dm - dn) =~= dv);
            assert(disconnect_ok(s0, dv, wk, rk));
        }
        if just_check {
            return Ok(false);
        }
        // Apply: remove the refunds, then the withdrawals, then the deposits.
        proof {
            assert(rk.take(rk.len() as int) =~= rk);
            assert(wk.take(wk.len() as int) =~= wk);
        }
        let mut j = rf_keys.len();
        while j > 0
            invariant
                0 <= j <= rf_keys@.len(),
                tbl_sorted(tbl_view(self.refunds@)),
                forall|m: int| 0 <= m < j ==> tbl_contains(tbl_view(self.refunds@), #[trigger] rk[m]),
                tremove_all(s0.refunds, rk) == tremove_all(
                    tbl_view(self.refunds@),
                    rk.take(j as int),
                ),
                self.deposits == old(self).deposits,
                self.withdrawals == old(self).withdrawals,
                self.height == old(self).height,
                self.in_flight == old(self).in_flight,
                self.bmm == old(self).bmm,
                self.sidechain_number == old(self).sidechain_number,
            decreases j,
        {
            j -= 1;
            let ghost cur = tbl_view(self.refunds@);
            proof {
                assert(rk[j as int] == rf_keys@[j as int]@);
            }
            tbl_remove(&mut self.refunds, &rf_keys[j]);
            proof {
                assert(tbl_view(self.refunds@) == tremove(cur, rk[j as int]));
                assert(rk.take(j + 1).last() == rk[j as int]);
                assert(rk.take(j + 1).drop_last() =~= rk.take(j as int));
                assert(tremove_all(cur, rk.take(j + 1)) == tremove_all(
                    tremove(cur, rk[j as int]),
                    rk.take(j as int),
                ));
                lemma_tremove_sorted(cur, rk[j as int]);
                assert forall|m: int| 0 <= m < j implies tbl_contains(
                    tbl_view(self.refunds@),
                    #[trigger] rk[m],
                ) by {
                    lemma_tremove_contains(cur, rk[j as int], rk[m]);
                }
            }
        }
        proof {
            assert(rk.take(0) =~= Seq::<Seq<u8>>::empty());
            assert(tbl_view(self.refunds@) == tremove_all(s0.refunds, rk));
        }
        let mut j = wd_keys.len();
        while j > 0
            invariant
                0 <= j <= wd_keys@.len(),
                tbl_sorted(tbl_view(self.withdrawals@)),
                forall|m: int|
                    0 <= m < j ==> tbl_contains(tbl_view(self.withdrawals@), #[trigger] wk[m]),
                tremove_all(s0.withdrawals, wk) == tremove_all(
                    tbl_view(self.withdrawals@),
                    wk.take(j as int),
                ),
                tbl_view(self.refunds@) == tremove_all(s0.refunds, rk),
                tbl_sorted(tbl_view(self.refunds@)),
                self.deposits == old(self).deposits,
                self.height == old(self).height,
                self.in_flight == old(self).in_flight,
                self.bmm == old(self).bmm,
                self.sidechain_number == old(self).sidechain_number,
            decreases j,
        {
            j -= 1;
            let ghost cur = tbl_view(self.withdrawals@);
            proof {
                assert(wk[j as int] == wd_keys@[j as int]@);
            }
            tbl_remove(&mut self.withdrawals, &wd_keys[j]);
            proof {
                assert(tbl_view(self.withdrawals@) == tremove(cur, wk[j as int]));
                assert(wk.take(j + 1).last() == wk[j as int]);
                assert(wk.take(j + 1).drop_last() =~= wk.take(j as int));
                assert(tremove_all(cur, wk.take(j + 1)) == tremove_all(
                    tremove(cur, wk[j as int]),
                    wk.take(j as int),
                ));
                lemma_tremove_sorted(cur, wk[j as int]);
                assert forall|m: int| 0 <= m < j implies tbl_contains(
                    tbl_view(self.withdrawals@),
                    #[trigger] wk[m],
                ) by {
                    lemma_tremove_contains(cur, wk[j as int], wk[m]);
                }
            }
        }
        proof {
            assert(wk.take(0) =~= Seq::<Seq<u8>>::empty());
            assert(tbl_view(self.withdrawals@) == tremove_all(s0.withdrawals, wk));
        }
        let keep = dm - dn;
        self.deposits.truncate(keep);
        self.height = self.height - 1;
        proof {
            assert(self@.deposits =~= s0.deposits.take(dm - dn)) by {
                assert(forall|m: int|
                    0 <= m < keep ==> self.deposits@[m] == old(self).deposits@[m]);
            }
            let wprime = tremove_all(s0.withdrawals, wk);
            let rprime = tremove_all(s0.refunds, rk);
            assert forall|i: int| 0 <= i < rprime.len() implies tbl_contains(
                wprime,
                (#[trigger] rprime[i]).0,
            ) by {
                let x = rprime[i].0;
                assert(tbl_contains(rprime, x));
                crate::table::lemma_tremove_all_facts(s0.refunds, rk, x);
                assert(tbl_contains(s0.refunds, x) && !rk.contains(x));
                let ri = choose|m: int| 0 <= m < s0.refunds.len() && (#[trigger] s0.refunds[m]).0 == x;
                assert(tbl_contains(s0.withdrawals, x));
                if wk.contains(x) {
                    let m = choose|m: int| 0 <= m < wk.len() && wk[m] == x;
                    assert(tbl_contains(s0.withdrawals, wk[m]) && (!tbl_contains(s0.refunds, wk[m])
                        || rk.contains(wk[m])));
                    assert(false);
                }
                crate::table::lemma_tremove_all_facts(s0.withdrawals, wk, x);
            }
            let p20 = |e: (Seq<u8>, WithdrawalView)| e.1.dest.len() == 20;
            crate::table::lemma_tremove_all_entry_prop(s0.withdrawals, wk, p20);
            assert(self@.wf());
            assert(self@ =~~= disconnect_apply(s0, dv, wk, rk));
        }
        Ok(true)
    }
}

/// Invertibility: for any batch a store accepts, disconnecting the batch
/// right after connecting it restores the store exactly — deposits,
/// withdrawals, refunds, spent outpoints and height alike.
pub proof fn lemma_connect_then_disconnect(
    s: StoreView,
    deps: Seq<DepositView>,
    wds: Seq<(Seq<u8>, WithdrawalView)>,
    rfs: Seq<(Seq<u8>, u64)>,
)
    requires
        s.wf(),
        connect_ok(s, wds, rfs),
    ensures
        disconnect_ok(connect_apply(s, deps, wds, rfs), deps, batch_keys(wds), batch_keys(rfs)),
        disconnect_apply(
            connect_apply(s, deps, wds, rfs),
            deps,
            batch_keys(wds),
            batch_keys(rfs),
        ) == s,
{
    let s1 = connect_apply(s, deps, wds, rfs);
    let wkk = batch_keys(wds);
    let rkk = batch_keys(rfs);
    assert(forall|i: int| 0 <= i < wds.len() ==> #[trigger] wkk[i] == wds[i].0);
    assert(forall|i: int| 0 <= i < rfs.len() ==> #[trigger] rkk[i] == rfs[i].0);
    assert(forall|i: int|
        0 <= i < rfs.len() ==> !tbl_contains(s.refunds, (#[trigger] rfs[i]).0));
    lemma_tremove_all_tinsert_all(s.withdrawals, wds);
    lemma_tremove_all_tinsert_all(s.refunds, rfs);
    assert forall|i: int| 0 <= i < rkk.len() implies tbl_contains(
        s1.refunds,
        #[trigger] rkk[i],
    ) by {
        lemma_tinsert_all_contains(s.refunds, rfs, rkk[i]);
    }
    assert forall|i: int| 0 <= i < wkk.len() implies tbl_contains(s1.withdrawals, #[trigger] wkk[i])
        && !tbl_contains(s1.refunds, wkk[i]) by {
        lemma_tinsert_all_contains(s.withdrawals, wds, wkk[i]);
        lemma_tinsert_all_contains(s.refunds, rfs, wkk[i]);
        assert(!s.spent(wds[i].0));
        if tbl_contains(s.refunds, wkk[i]) {
            let m = choose|m: int|
                0 <= m < s.refunds.len() && (#[trigger] s.refunds[m]).0 == wkk[i];
            assert(tbl_contains(s.withdrawals, s.refunds[m].0));
            assert(false);
        }
        if tbl_contains(rfs, wkk[i]) {
            let m = choose|m: int| 0 <= m < rfs.len() && (#[trigger] rfs[m]).0 == wkk[i];
            assert(tbl_contains(s.withdrawals, rfs[m].0));
            assert(false);
        }
    }
    assert(s1.deposits.skip(s1.deposits.len() - deps.len()) =~= deps);
    assert(s1.deposits.take(s1.deposits.len() - deps.len()) =~= s.deposits);
    assert(disconnect_ok(s1, deps, wkk, rkk));
    assert(disconnect_apply(s1, deps, wkk, rkk) =~~= s);
}

/// Spent-outpoint discipline: connecting a batch marks exactly the batch's
/// withdrawal outpoints spent — each was unspent before — and the matching
/// disconnect unmarks exactly those again; no other outpoint's spent status
/// ever changes.
pub proof fn lemma_spent_set_changes(
    s: StoreView,
    deps: Seq<DepositView>,
    wds: Seq<(Seq<u8>, WithdrawalView)>,
    rfs: Seq<(Seq<u8>, u64)>,
    o: Seq<u8>,
)
    requires
        s.wf(),
        connect_ok(s, wds, rfs),
    ensures
        ({
            let s1 = connect_apply(s, deps, wds, rfs);
            let s2 = disconnect_apply(s1, deps, batch_keys(wds), batch_keys(rfs));
            &&& tbl_contains(wds, o) ==> (!s.spent(o) && s1.spent(o) && !s2.spent(o))
            &&& !tbl_contains(wds, o) ==> (s1.spent(o) == s.spent(o) && s2.spent(o) == s.spent(o))
        }),
{
    lemma_tinsert_all_contains(s.withdrawals, wds, o);
    lemma_connect_then_disconnect(s, deps, wds, rfs);
    if tbl_contains(wds, o) {
        let i = choose|i: int| 0 <= i < wds.len() && (#[trigger] wds[i]).0 == o;
        assert(!s.spent(wds[i].0));
    }
}

/// Double-spend rejection: a batch that claims one outpoint both as a
/// withdrawal and as a refund can never be connected, whatever the store —
/// the withdrawal side needs the outpoint unseen, the refund side needs it
/// already withdrawn.
pub proof fn lemma_double_spend_rejected(
    s: StoreView,
    wds: Seq<(Seq<u8>, WithdrawalView)>,
    rfs: Seq<(Seq<u8>, u64)>,
    o: Seq<u8>,
)
    requires
        tbl_contains(wds, o),
        tbl_contains(rfs, o),
    ensures
        !connect_ok(s, wds, rfs),
{
    if connect_ok(s, wds, rfs) {
        let i = choose|i: int| 0 <= i < wds.len() && (#[trigger] wds[i]).0 == o;
        let j = choose|j: int| 0 <= j < rfs.len() && (#[trigger] rfs[j]).0 == o;
        assert(!s.spent(wds[i].0));
        assert(tbl_contains(s.withdrawals, rfs[j].0));
        assert(false);
    }
}

} // verus!
