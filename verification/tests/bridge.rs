use drivechain_bridge::bmm::decode_main_block_hash;
use drivechain_bridge::codec::extract_mainchain_address_bytes;
use drivechain_bridge::connector::{RefundRequest, WithdrawalRequest};
use drivechain_bridge::errors::BridgeError;
use drivechain_bridge::state::{BmmState, Deposit, Drivechain};

fn deposit(address: &str, amount: u64) -> Deposit {
    Deposit { address: String::from(address), amount }
}

fn withdrawal(outpoint: &str, main_address: &str, main_fee: u64, amount: u64) -> WithdrawalRequest {
    WithdrawalRequest {
        outpoint: String::from(outpoint),
        main_address: String::from(main_address),
        main_fee,
        amount,
    }
}

fn refund(outpoint: &str, amount: u64) -> RefundRequest {
    RefundRequest { outpoint: String::from(outpoint), amount }
}

const DEST: &str = "00112233445566778899aabbccddeeff00112233";

#[test]
fn deposit_connect_then_disconnect_roundtrip() {
    let mut dc = Drivechain::new(0);
    let r = dc.connect_block(vec![deposit("sc1abc", 500000)], vec![], vec![], false);
    assert_eq!(r, Ok(true));
    let outs = dc.get_deposit_outputs();
    assert_eq!(outs.len(), 1);
    assert_eq!(outs[0].address, "sc1abc");
    assert_eq!(outs[0].amount, 500000);
    let r = dc.disconnect_block(vec![deposit("sc1abc", 500000)], vec![], vec![], false);
    assert_eq!(r, Ok(true));
    assert_eq!(dc.get_deposit_outputs().len(), 0);
}

#[test]
fn dry_run_validates_without_mutating() {
    let mut dc = Drivechain::new(0);
    let r = dc.connect_block(
        vec![deposit("sc1abc", 7)],
        vec![withdrawal("00ff", DEST, 10, 1000)],
        vec![],
        true,
    );
    assert_eq!(r, Ok(false));
    assert_eq!(dc.get_deposit_outputs().len(), 0);
    assert_eq!(dc.is_outpoint_spent("00ff"), Ok(false));
}

#[test]
fn dry_run_of_invalid_batch_reports_and_mutates_nothing() {
    let mut dc = Drivechain::new(0);
    let r = dc.connect_block(
        vec![],
        vec![withdrawal("aa", DEST, 1, 2), withdrawal("aa", DEST, 3, 4)],
        vec![],
        true,
    );
    assert_eq!(r, Err(BridgeError::DoubleSpend));
    assert_eq!(dc.is_outpoint_spent("aa"), Ok(false));
}

#[test]
fn same_outpoint_as_withdrawal_and_refund_is_a_double_spend() {
    let mut dc = Drivechain::new(0);
    let r = dc.connect_block(
        vec![deposit("sc1abc", 5)],
        vec![withdrawal("ab", DEST, 1, 2)],
        vec![refund("ab", 2)],
        false,
    );
    assert_eq!(r, Err(BridgeError::DoubleSpend));
    assert_eq!(dc.get_deposit_outputs().len(), 0);
    assert_eq!(dc.is_outpoint_spent("ab"), Ok(false));
}

#[test]
fn spent_marks_rise_and_fall_with_connect_and_disconnect() {
    let mut dc = Drivechain::new(0);
    let r = dc.connect_block(vec![], vec![withdrawal("0a0b", DEST, 1, 2)], vec![], false);
    assert_eq!(r, Ok(true));
    assert_eq!(dc.is_outpoint_spent("0a0b"), Ok(true));
    assert_eq!(dc.is_outpoint_spent("0a0c"), Ok(false));
    let r = dc.disconnect_block(vec![], vec![String::from("0a0b")], vec![], false);
    assert_eq!(r, Ok(true));
    assert_eq!(dc.is_outpoint_spent("0a0b"), Ok(false));
    assert_eq!(dc.is_outpoint_spent("0a0c"), Ok(false));
}

#[test]
fn hex_outpoints_are_decoded_not_compared_as_text() {
    let mut dc = Drivechain::new(0);
    dc.connect_block(vec![], vec![withdrawal("00ff", DEST, 1, 2)], vec![], false).unwrap();
    // Same bytes, different case: the spent mark is on the bytes.
    assert_eq!(dc.is_outpoint_spent("00FF"), Ok(true));
    assert_eq!(dc.is_outpoint_spent("zz"), Err(BridgeError::InvalidOutpoint));
    assert_eq!(dc.is_outpoint_spent("abc"), Err(BridgeError::InvalidOutpoint));
}

#[test]
fn withdrawal_outpoint_cannot_be_claimed_twice_across_blocks() {
    let mut dc = Drivechain::new(0);
    assert_eq!(dc.connect_block(vec![], vec![withdrawal("aa", DEST, 1, 2)], vec![], false), Ok(true));
    assert_eq!(
        dc.connect_block(vec![], vec![withdrawal("aa", DEST, 9, 9)], vec![], false),
        Err(BridgeError::DoubleSpend)
    );
    assert_eq!(dc.is_outpoint_spent("aa"), Ok(true));
}

#[test]
fn refund_lifecycle_connects_and_disconnects() {
    let mut dc = Drivechain::new(0);
    assert_eq!(dc.connect_block(vec![], vec![withdrawal("aa", DEST, 1, 2)], vec![], false), Ok(true));
    // A refund needs its withdrawal on record.
    assert_eq!(
        dc.connect_block(vec![], vec![], vec![refund("bb", 2)], false),
        Err(BridgeError::DoubleSpend)
    );
    assert_eq!(dc.connect_block(vec![], vec![], vec![refund("aa", 2)], false), Ok(true));
    // A second refund of the same withdrawal conflicts.
    assert_eq!(
        dc.connect_block(vec![], vec![], vec![refund("aa", 2)], false),
        Err(BridgeError::DoubleSpend)
    );
    // The withdrawal cannot fall while its refund stands.
    assert_eq!(
        dc.disconnect_block(vec![], vec![String::from("aa")], vec![], false),
        Err(BridgeError::DoubleSpend)
    );
    assert_eq!(
        dc.disconnect_block(vec![], vec![], vec![String::from("aa")], false),
        Ok(true)
    );
    assert_eq!(dc.disconnect_block(vec![], vec![String::from("aa")], vec![], false), Ok(true));
    assert_eq!(dc.is_outpoint_spent("aa"), Ok(false));
}

#[test]
fn refund_and_its_withdrawal_can_fall_in_one_batch() {
    let mut dc = Drivechain::new(0);
    assert_eq!(dc.connect_block(vec![], vec![withdrawal("aa", DEST, 1, 2)], vec![], false), Ok(true));
    assert_eq!(dc.connect_block(vec![], vec![], vec![refund("aa", 2)], false), Ok(true));
    assert_eq!(
        dc.disconnect_block(vec![], vec![String::from("aa")], vec![String::from("aa")], false),
        Ok(true)
    );
    assert_eq!(dc.is_outpoint_spent("aa"), Ok(false));
}

#[test]
fn disconnect_of_unmatched_deposits_is_refused() {
    let mut dc = Drivechain::new(0);
    dc.connect_block(vec![deposit("sc1abc", 5)], vec![], vec![], false).unwrap();
    assert_eq!(
        dc.disconnect_block(vec![deposit("sc1abc", 6)], vec![], vec![], false),
        Err(BridgeError::DoubleSpend)
    );
    assert_eq!(
        dc.disconnect_block(vec![deposit("other", 5)], vec![], vec![], false),
        Err(BridgeError::DoubleSpend)
    );
    assert_eq!(dc.get_deposit_outputs().len(), 1);
}

#[test]
fn malformed_hex_is_rejected_before_any_mutation() {
    let mut dc = Drivechain::new(0);
    assert_eq!(
        dc.connect_block(vec![], vec![withdrawal("xx", DEST, 1, 2)], vec![], false),
        Err(BridgeError::InvalidOutpoint)
    );
    assert_eq!(
        dc.connect_block(vec![], vec![withdrawal("aa", "0011", 1, 2)], vec![], false),
        Err(BridgeError::InvalidAddress)
    );
    assert_eq!(
        dc.connect_block(vec![], vec![], vec![refund("q0", 1)], false),
        Err(BridgeError::InvalidOutpoint)
    );
    assert_eq!(
        dc.disconnect_block(vec![], vec![String::from("zz")], vec![], false),
        Err(BridgeError::InvalidOutpoint)
    );
    assert_eq!(dc.get_deposit_outputs().len(), 0);
}

const CRIT: &str = "1111111111111111111111111111111111111111111111111111111111111111";
const TIP: &str = "2222222222222222222222222222222222222222222222222222222222222222";
const CHILD: &str = "3333333333333333333333333333333333333333333333333333333333333333";

#[test]
fn bmm_attempt_succeeds_when_child_carries_commitment() {
    let mut dc = Drivechain::new(0);
    let a = dc.attempt_bmm(CRIT, TIP, 1000, TIP).unwrap();
    assert_eq!(a.amount, 1000);
    assert_eq!(a.prev_main_block_hash, hex::decode(TIP).unwrap());
    // The tip has not moved: still pending.
    let st = dc.confirm_bmm(&hex::decode(TIP).unwrap(), &hex::decode(TIP).unwrap(), &None);
    assert_eq!(st, BmmState::Pending);
    // The anchor's child carries the commitment: succeeded.
    let st = dc.confirm_bmm(
        &hex::decode(CHILD).unwrap(),
        &hex::decode(TIP).unwrap(),
        &Some(hex::decode(CRIT).unwrap()),
    );
    assert_eq!(st, BmmState::Succeeded);
    // Terminal per attempt.
    let st = dc.confirm_bmm(&hex::decode(CHILD).unwrap(), &hex::decode(TIP).unwrap(), &None);
    assert_eq!(st, BmmState::Succeeded);
}

#[test]
fn bmm_attempt_fails_on_mismatch_or_reorg() {
    let mut dc = Drivechain::new(0);
    dc.attempt_bmm(CRIT, TIP, 1000, TIP).unwrap();
    // The chain advanced without our commitment.
    let st = dc.confirm_bmm(&hex::decode(CHILD).unwrap(), &hex::decode(TIP).unwrap(), &None);
    assert_eq!(st, BmmState::Failed);
    // A fresh attempt starts a fresh cycle; a reorg away from the anchor fails it.
    dc.attempt_bmm(CRIT, TIP, 1000, TIP).unwrap();
    let st = dc.confirm_bmm(
        &hex::decode(CHILD).unwrap(),
        &hex::decode(CHILD).unwrap(),
        &Some(hex::decode(CRIT).unwrap()),
    );
    assert_eq!(st, BmmState::Failed);
}

#[test]
fn bmm_attempt_rejects_stale_anchor_and_bad_hashes() {
    let mut dc = Drivechain::new(0);
    assert!(matches!(dc.attempt_bmm(CRIT, TIP, 1, CHILD), Err(BridgeError::StaleAnchor)));
    assert!(matches!(dc.attempt_bmm("beef", TIP, 1, TIP), Err(BridgeError::InvalidHash)));
    assert!(matches!(dc.attempt_bmm(CRIT, "zz", 1, TIP), Err(BridgeError::InvalidHash)));
    // Nothing was recorded: confirming finds no attempt.
    let st = dc.confirm_bmm(&hex::decode(TIP).unwrap(), &hex::decode(TIP).unwrap(), &None);
    assert_eq!(st, BmmState::Failed);
}

#[test]
fn verify_bmm_is_a_boolean_check_never_an_error() {
    let dc = Drivechain::new(0);
    let crit = hex::decode(CRIT).unwrap();
    assert!(dc.verify_bmm(TIP, CRIT, &Some(crit.clone())));
    assert!(!dc.verify_bmm(TIP, CRIT, &Some(hex::decode(CHILD).unwrap())));
    assert!(!dc.verify_bmm(TIP, CRIT, &None));
    assert!(!dc.verify_bmm("nothex", CRIT, &Some(crit.clone())));
    assert!(!dc.verify_bmm(TIP, "beef", &Some(crit)));
}

#[test]
fn decode_main_block_hash_wants_exactly_32_bytes_of_hex() {
    assert_eq!(decode_main_block_hash(TIP).unwrap(), hex::decode(TIP).unwrap());
    assert_eq!(decode_main_block_hash("beef"), Err(BridgeError::InvalidHash));
    assert_eq!(decode_main_block_hash("zz"), Err(BridgeError::InvalidHash));
}

#[test]
fn empty_pending_set_is_a_bundle_noop() {
    let mut dc = Drivechain::new(0);
    assert!(matches!(dc.attempt_bundle_broadcast(), Err(BridgeError::NoPendingWithdrawals)));
    // A refunded withdrawal is not pending either.
    dc.connect_block(vec![], vec![withdrawal("aa", DEST, 1, 2)], vec![], false).unwrap();
    dc.connect_block(vec![], vec![], vec![refund("aa", 2)], false).unwrap();
    assert!(matches!(dc.attempt_bundle_broadcast(), Err(BridgeError::NoPendingWithdrawals)));
}

#[test]
fn bundles_are_ordered_deduplicated_and_retryable() {
    let mut dc = Drivechain::new(0);
    dc.connect_block(
        vec![],
        vec![withdrawal("ff01", DEST, 10, 100), withdrawal("aa02", DEST, 5, 50)],
        vec![],
        false,
    )
    .unwrap();
    let bundle = dc.attempt_bundle_broadcast().unwrap().unwrap();
    assert_eq!(bundle.entries.len(), 2);
    // Ordered by outpoint, ascending.
    assert_eq!(bundle.entries[0].0, hex::decode("aa02").unwrap());
    assert_eq!(bundle.entries[1].0, hex::decode("ff01").unwrap());
    assert_eq!(bundle.total_fee, 15);
    assert_eq!(bundle.entries[0].1.amount, 50);
    assert_eq!(bundle.entries[0].1.dest, hex::decode(DEST).unwrap());
    // The same set is already in flight: no duplicate broadcast.
    assert!(matches!(dc.attempt_bundle_broadcast(), Ok(None)));
    // A rejected broadcast leaves the withdrawals pending for a retry.
    assert_eq!(dc.record_bundle_broadcast(false), Err(BridgeError::BroadcastRejected));
    let again = dc.attempt_bundle_broadcast().unwrap().unwrap();
    assert_eq!(again.entries.len(), 2);
    assert_eq!(dc.record_bundle_broadcast(true), Ok(()));
    assert!(matches!(dc.attempt_bundle_broadcast(), Ok(None)));
}

#[test]
fn withdrawal_heights_are_assigned_by_the_connector() {
    let mut dc = Drivechain::new(0);
    dc.connect_block(vec![deposit("a", 1)], vec![], vec![], false).unwrap();
    dc.connect_block(vec![], vec![withdrawal("aa", DEST, 1, 2)], vec![], false).unwrap();
    let bundle = dc.attempt_bundle_broadcast().unwrap().unwrap();
    // The withdrawal was introduced by the second connected block.
    assert_eq!(bundle.entries[0].1.height, 2);
}

#[test]
fn flush_reports_the_record_count() {
    let mut dc = Drivechain::new(0);
    assert_eq!(dc.flush(), 0);
    dc.connect_block(
        vec![deposit("a", 1), deposit("b", 2)],
        vec![withdrawal("aa", DEST, 1, 2)],
        vec![],
        false,
    )
    .unwrap();
    dc.connect_block(vec![], vec![], vec![refund("aa", 2)], false).unwrap();
    assert_eq!(dc.flush(), 4);
}

#[test]
fn extract_mainchain_address_bytes_wants_a_20_byte_payload() {
    assert_eq!(
        extract_mainchain_address_bytes("invalid!!"),
        Err(BridgeError::InvalidAddress)
    );
    // The address whose pubkey-hash payload is twenty zero bytes.
    assert_eq!(
        extract_mainchain_address_bytes("1111111111111111111114oLvT2"),
        Ok(vec![0u8; 20])
    );
}

#[test]
fn format_deposit_address_tags_sidechain_and_address() {
    let dc = Drivechain::new(5);
    assert_eq!(dc.format_deposit_address("abc"), "s5_abc_");
    let dc = Drivechain::new(12340);
    assert_eq!(dc.format_deposit_address(""), "s12340__");
}

#[test]
fn errors_describe_themselves() {
    assert_eq!(BridgeError::DoubleSpend.describe(), "conflicting outpoint claim");
    assert!(!BridgeError::StaleAnchor.describe().is_empty());
}
