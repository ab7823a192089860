use escrow::contexts::{Cancel, Exchange, Initialize};
use escrow::ledger::Ledger;
use escrow::state::{Authority, Escrow, EscrowError, Holding};
use escrow::{cancel, exchange, initialize};

const MINT_A: u64 = 10;
const MINT_B: u64 = 20;
const ALICE: u64 = 1;
const BOB: u64 = 2;
const SEED: u64 = 7;

fn party(key: u64) -> Authority {
    Authority::Party { key }
}

fn custody(seed: u64) -> Authority {
    Authority::Derived { seed }
}

/// A ledger where the initializer has already deposited 100 of A asking 50 of
/// B under `SEED`.
fn open_offer() -> Ledger {
    let mut l = Ledger::new();
    l.fund(ALICE, MINT_A, 100).unwrap();
    let ctx = Initialize {
        initializer: ALICE,
        random_seed: SEED,
        offering_mint: MINT_A,
        asking_mint: MINT_B,
        now: 1_700_000_000,
    };
    initialize(&mut l, ctx, 100, 50).unwrap();
    l
}

#[test]
fn initialize_moves_deposit_into_custody() {
    let l = open_offer();
    assert_eq!(l.balance_of(custody(SEED), MINT_A), 100);
    assert_eq!(l.balance_of(party(ALICE), MINT_A), 0);
    assert!(l.record_exists(SEED));
}

#[test]
fn initialize_records_all_fields() {
    let l = open_offer();
    let rec = l.get_record(SEED).unwrap();
    assert_eq!(
        rec,
        Escrow {
            random_seed: SEED,
            initializer: ALICE,
            offering_mint: MINT_A,
            offering_amount: 100,
            asking_mint: MINT_B,
            asking_amount: 50,
            initialize_date: 1_700_000_000,
        }
    );
}

#[test]
fn initialize_rejects_zero_amounts() {
    let mut l = Ledger::new();
    l.fund(ALICE, MINT_A, 100).unwrap();
    let ctx = Initialize {
        initializer: ALICE,
        random_seed: SEED,
        offering_mint: MINT_A,
        asking_mint: MINT_B,
        now: 0,
    };
    assert_eq!(initialize(&mut l, ctx, 0, 50), Err(EscrowError::InvalidAmount));
    assert_eq!(initialize(&mut l, ctx, 100, 0), Err(EscrowError::InvalidAmount));
    assert_eq!(l.balance_of(party(ALICE), MINT_A), 100);
    assert!(!l.record_exists(SEED));
}

#[test]
fn initialize_rejects_insufficient_deposit() {
    let mut l = Ledger::new();
    l.fund(ALICE, MINT_A, 99).unwrap();
    let ctx = Initialize {
        initializer: ALICE,
        random_seed: SEED,
        offering_mint: MINT_A,
        asking_mint: MINT_B,
        now: 0,
    };
    assert_eq!(
        initialize(&mut l, ctx, 100, 50),
        Err(EscrowError::InsufficientBalance)
    );
    assert_eq!(l.balance_of(party(ALICE), MINT_A), 99);
    assert!(!l.record_exists(SEED));
}

#[test]
fn initialize_twice_takes_no_second_deposit() {
    let mut l = open_offer();
    l.fund(ALICE, MINT_A, 500).unwrap();
    let ctx = Initialize {
        initializer: ALICE,
        random_seed: SEED,
        offering_mint: MINT_A,
        asking_mint: MINT_B,
        now: 5,
    };
    assert_eq!(initialize(&mut l, ctx, 100, 50), Err(EscrowError::RecordExists));
    // nothing moved: the depositor keeps the new funds, custody still holds
    // exactly the first deposit, and the record kept its original fields
    assert_eq!(l.balance_of(party(ALICE), MINT_A), 500);
    assert_eq!(l.balance_of(custody(SEED), MINT_A), 100);
    assert_eq!(l.get_record(SEED).unwrap().initialize_date, 1_700_000_000);
}

#[test]
fn exchange_settles_offer_atomically() {
    let mut l = open_offer();
    l.fund(BOB, MINT_B, 60).unwrap();
    let r = exchange(&mut l, Exchange { taker: BOB, random_seed: SEED });
    assert_eq!(r, Ok(()));
    // the initializer received exactly the ask, the taker exactly the deposit
    assert_eq!(l.balance_of(party(ALICE), MINT_B), 50);
    assert_eq!(l.balance_of(party(BOB), MINT_A), 100);
    // only 50 of the taker's 60 moved, never the overpayment
    assert_eq!(l.balance_of(party(BOB), MINT_B), 10);
    // custody closed, record gone
    assert!(!l.holding_exists(custody(SEED), MINT_A));
    assert!(!l.record_exists(SEED));
}

#[test]
fn exchange_rejects_insufficient_taker() {
    let mut l = open_offer();
    l.fund(BOB, MINT_B, 40).unwrap();
    let r = exchange(&mut l, Exchange { taker: BOB, random_seed: SEED });
    assert_eq!(r, Err(EscrowError::InsufficientBalance));
    // no balances changed and the record remains open
    assert_eq!(l.balance_of(party(BOB), MINT_B), 40);
    assert_eq!(l.balance_of(party(ALICE), MINT_B), 0);
    assert_eq!(l.balance_of(custody(SEED), MINT_A), 100);
    assert!(l.record_exists(SEED));
}

#[test]
fn exchange_rejects_missing_record() {
    let mut l = Ledger::new();
    l.fund(BOB, MINT_B, 60).unwrap();
    let r = exchange(&mut l, Exchange { taker: BOB, random_seed: SEED });
    assert_eq!(r, Err(EscrowError::RecordNotFound));
}

#[test]
fn exchange_rejects_when_initializer_cannot_receive() {
    let mut l = open_offer();
    l.fund(BOB, MINT_B, 60).unwrap();
    l.fund(ALICE, MINT_B, u64::MAX - 10).unwrap();
    let r = exchange(&mut l, Exchange { taker: BOB, random_seed: SEED });
    assert_eq!(r, Err(EscrowError::BalanceOverflow));
    assert_eq!(l.balance_of(party(BOB), MINT_B), 60);
    assert!(l.record_exists(SEED));
}

#[test]
fn exchange_by_initializer_returns_own_deposit() {
    let mut l = open_offer();
    l.fund(ALICE, MINT_B, 60).unwrap();
    let r = exchange(&mut l, Exchange { taker: ALICE, random_seed: SEED });
    assert_eq!(r, Ok(()));
    // paying the ask to oneself moves nothing; the deposit comes back
    assert_eq!(l.balance_of(party(ALICE), MINT_B), 60);
    assert_eq!(l.balance_of(party(ALICE), MINT_A), 100);
    assert!(!l.record_exists(SEED));
}

#[test]
fn exchange_with_same_mint_both_legs() {
    let mut l = Ledger::new();
    l.fund(ALICE, MINT_A, 100).unwrap();
    let ctx = Initialize {
        initializer: ALICE,
        random_seed: SEED,
        offering_mint: MINT_A,
        asking_mint: MINT_A,
        now: 0,
    };
    initialize(&mut l, ctx, 100, 50).unwrap();
    l.fund(BOB, MINT_A, 60).unwrap();
    let r = exchange(&mut l, Exchange { taker: BOB, random_seed: SEED });
    assert_eq!(r, Ok(()));
    assert_eq!(l.balance_of(party(BOB), MINT_A), 110);
    assert_eq!(l.balance_of(party(ALICE), MINT_A), 50);
    assert!(!l.record_exists(SEED));
}

#[test]
fn cancel_refunds_initializer() {
    let mut l = open_offer();
    let r = cancel(&mut l, Cancel { initializer: ALICE, random_seed: SEED });
    assert_eq!(r, Ok(()));
    assert_eq!(l.balance_of(party(ALICE), MINT_A), 100);
    assert!(!l.holding_exists(custody(SEED), MINT_A));
    assert!(!l.record_exists(SEED));
}

#[test]
fn cancel_then_exchange_rejects() {
    let mut l = open_offer();
    l.fund(BOB, MINT_B, 60).unwrap();
    cancel(&mut l, Cancel { initializer: ALICE, random_seed: SEED }).unwrap();
    let r = exchange(&mut l, Exchange { taker: BOB, random_seed: SEED });
    assert_eq!(r, Err(EscrowError::RecordNotFound));
    assert_eq!(l.balance_of(party(BOB), MINT_B), 60);
    assert_eq!(l.balance_of(party(ALICE), MINT_A), 100);
}

#[test]
fn exchange_then_cancel_rejects() {
    let mut l = open_offer();
    l.fund(BOB, MINT_B, 60).unwrap();
    exchange(&mut l, Exchange { taker: BOB, random_seed: SEED }).unwrap();
    let r = cancel(&mut l, Cancel { initializer: ALICE, random_seed: SEED });
    assert_eq!(r, Err(EscrowError::RecordNotFound));
    // the settlement stands untouched
    assert_eq!(l.balance_of(party(ALICE), MINT_B), 50);
    assert_eq!(l.balance_of(party(BOB), MINT_A), 100);
}

#[test]
fn cancel_rejects_other_caller() {
    let mut l = open_offer();
    let r = cancel(&mut l, Cancel { initializer: BOB, random_seed: SEED });
    assert_eq!(r, Err(EscrowError::Unauthorized));
    assert_eq!(l.balance_of(custody(SEED), MINT_A), 100);
    assert!(l.record_exists(SEED));
}

#[test]
fn cancel_rejects_missing_record() {
    let mut l = Ledger::new();
    let r = cancel(&mut l, Cancel { initializer: ALICE, random_seed: SEED });
    assert_eq!(r, Err(EscrowError::RecordNotFound));
}

#[test]
fn cancel_rejects_missing_refund_holding() {
    // a ledger built directly: an open record whose initializer holds no
    // offering-asset holding to be refunded into
    let rec = Escrow {
        random_seed: SEED,
        initializer: ALICE,
        offering_mint: MINT_A,
        offering_amount: 100,
        asking_mint: MINT_B,
        asking_amount: 50,
        initialize_date: 0,
    };
    let vault = Holding { owner: custody(SEED), mint: MINT_A, amount: 100 };
    let mut l = Ledger { holdings: vec![vault], escrows: vec![rec] };
    let r = cancel(&mut l, Cancel { initializer: ALICE, random_seed: SEED });
    assert_eq!(r, Err(EscrowError::MissingHolding));
    assert_eq!(l.balance_of(custody(SEED), MINT_A), 100);
    assert!(l.record_exists(SEED));
}

#[test]
fn cancel_rejects_when_refund_would_overflow() {
    let mut l = open_offer();
    l.fund(ALICE, MINT_A, u64::MAX - 50).unwrap();
    let r = cancel(&mut l, Cancel { initializer: ALICE, random_seed: SEED });
    assert_eq!(r, Err(EscrowError::BalanceOverflow));
    assert_eq!(l.balance_of(custody(SEED), MINT_A), 100);
    assert!(l.record_exists(SEED));
}

#[test]
fn fund_rejects_overflow() {
    let mut l = Ledger::new();
    l.fund(ALICE, MINT_A, u64::MAX).unwrap();
    assert_eq!(l.fund(ALICE, MINT_A, 1), Err(EscrowError::BalanceOverflow));
    assert_eq!(l.balance_of(party(ALICE), MINT_A), u64::MAX);
}

#[test]
fn records_with_different_seeds_are_independent() {
    let mut l = open_offer();
    l.fund(ALICE, MINT_A, 30).unwrap();
    let ctx = Initialize {
        initializer: ALICE,
        random_seed: SEED + 1,
        offering_mint: MINT_A,
        asking_mint: MINT_B,
        now: 9,
    };
    initialize(&mut l, ctx, 30, 5).unwrap();
    cancel(&mut l, Cancel { initializer: ALICE, random_seed: SEED }).unwrap();
    // the second record and its custody are untouched
    assert!(l.record_exists(SEED + 1));
    assert_eq!(l.balance_of(custody(SEED + 1), MINT_A), 30);
    assert_eq!(l.balance_of(party(ALICE), MINT_A), 100);
}

#[test]
fn namespace_tag_is_escrow() {
    assert_eq!(Escrow::seed(), b"escrow".to_vec());
}
