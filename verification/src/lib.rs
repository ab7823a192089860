//! A trustless two-party asset-swap escrow, modelled as a verified state
//! machine over a ledger of fungible-asset holdings and escrow records.
//!
//! One party (the initializer) deposits `offering_amount` units of
//! `offering_mint` into a custody holding controlled by an authority derived
//! from the record's seed, and names a price in `asking_mint`. Exactly one of
//! two terminal transitions then settles the offer: `cancel` (the initializer
//! reclaims the deposit) or `exchange` (any taker pays the ask and receives
//! the deposit). Each transition is a single call against the ledger: it
//! either applies in full or rejects with a reason code and leaves the ledger
//! unchanged, so no state in which only one leg of a swap has moved is ever
//! reachable.

use vstd::prelude::*;

pub mod contexts;
pub mod ledger;
pub mod model;
pub mod state;

use crate::contexts::{Cancel, Exchange, Initialize};
use crate::ledger::{custodies_backed, records_backed, Ledger};
use crate::model::{
    balance, has_escrow, has_holding, lemma_escrow_at, lemma_push_escrow, lemma_remove_escrow,
};
use crate::ledger::{lemma_no_record_no_custody, lemma_open_record_custody};
use crate::state::{Authority, Escrow, EscrowError};

verus! {

/// `initialize` succeeds exactly here: the seed's address is free, both
/// quantities are positive, and the depositor's holding covers the deposit.
pub open spec fn initialize_allowed(
    l: Ledger,
    ctx: Initialize,
    offering_amount: u64,
    asking_amount: u64,
) -> bool {
    &&& !l.has_record(ctx.random_seed)
    &&& offering_amount > 0
    &&& asking_amount > 0
    &&& balance(l.holdings@, Authority::Party { key: ctx.initializer }, ctx.offering_mint)
        >= offering_amount
}

/// Create a new open record under `ctx.random_seed` offering `offering_amount`
/// of `ctx.offering_mint` for `asking_amount` of `ctx.asking_mint`, and move
/// the deposit from the depositor's holding into the record's custody holding.
///
/// All-or-nothing: on any rejection the ledger is unchanged. A seed whose
/// address is already occupied is rejected outright, so retrying a creation
/// can never take a second deposit for one record.
pub fn initialize(
    ledger: &mut Ledger,
    ctx: Initialize,
    offering_amount: u64,
    asking_amount: u64,
) -> (r: Result<(), EscrowError>)
    requires
        old(ledger).wf(),
    ensures
        final(ledger).wf(),
        r is Ok <==> initialize_allowed(*old(ledger), ctx, offering_amount, asking_amount),
        r is Err ==> final(ledger).holdings@ == old(ledger).holdings@ && final(ledger).escrows@
            == old(ledger).escrows@,
        old(ledger).has_record(ctx.random_seed) ==> r == Err::<(), EscrowError>(
            EscrowError::RecordExists,
        ),
        !old(ledger).has_record(ctx.random_seed) && (offering_amount == 0 || asking_amount == 0)
            ==> r == Err::<(), EscrowError>(EscrowError::InvalidAmount),
        !old(ledger).has_record(ctx.random_seed) && offering_amount > 0 && asking_amount > 0
            && balance(
            old(ledger).holdings@,
            Authority::Party { key: ctx.initializer },
            ctx.offering_mint,
        ) < offering_amount ==> r == Err::<(), EscrowError>(EscrowError::InsufficientBalance),
        r is Ok ==> final(ledger).has_record(ctx.random_seed) && final(ledger).record(
            ctx.random_seed,
        ) == (Escrow {
            random_seed: ctx.random_seed,
            initializer: ctx.initializer,
            offering_mint: ctx.offering_mint,
            offering_amount,
            asking_mint: ctx.asking_mint,
            asking_amount,
            initialize_date: ctx.now,
        }),
        r is Ok ==> balance(
            final(ledger).holdings@,
            Authority::Derived { seed: ctx.random_seed },
            ctx.offering_mint,
        ) == offering_amount,
        r is Ok ==> balance(
            final(ledger).holdings@,
            Authority::Party { key: ctx.initializer },
            ctx.offering_mint,
        ) as int == balance(
            old(ledger).holdings@,
            Authority::Party { key: ctx.initializer },
            ctx.offering_mint,
        ) - offering_amount,
        r is Ok ==> forall|o: Authority, m: u64|
            !(o == (Authority::Party { key: ctx.initializer }) && m == ctx.offering_mint) && !(o
                == (Authority::Derived { seed: ctx.random_seed }) && m == ctx.offering_mint)
                ==> #[trigger] balance(final(ledger).holdings@, o, m) == balance(
                old(ledger).holdings@,
                o,
                m,
            ),
        r is Ok ==> forall|o: Authority, m: u64|
            #[trigger] has_holding(final(ledger).holdings@, o, m) == (has_holding(
                old(ledger).holdings@,
                o,
                m,
            ) || (o == (Authority::Derived { seed: ctx.random_seed }) && m == ctx.offering_mint)),
        r is Ok ==> forall|s: u64|
            s != ctx.random_seed ==> #[trigger] has_escrow(final(ledger).escrows@, s) == has_escrow(
                old(ledger).escrows@,
                s,
            ),
        r is Ok ==> forall|s: u64|
            s != ctx.random_seed && has_escrow(old(ledger).escrows@, s) ==> final(ledger).record(s)
                == old(ledger).record(s),
{
    let seed = ctx.random_seed;
    match ledger.find_escrow(seed) {
        Some(_) => {
            return Err(EscrowError::RecordExists);
        },
        None => {},
    }
    if offering_amount == 0 || asking_amount == 0 {
        return Err(EscrowError::InvalidAmount);
    }
    let depositor = Authority::Party { key: ctx.initializer };
    let custody = Authority::Derived { seed };
    proof {
        lemma_no_record_no_custody(*ledger, seed, ctx.offering_mint);
    }
    let ghost l0 = *ledger;
    let moved = ledger.transfer(depositor, custody, ctx.offering_mint, offering_amount);
    match moved {
        Err(_) => {
            return Err(EscrowError::InsufficientBalance);
        },
        Ok(()) => {},
    }
    let ghost l1 = *ledger;
    let record = Escrow {
        random_seed: seed,
        initializer: ctx.initializer,
        offering_mint: ctx.offering_mint,
        offering_amount,
        asking_mint: ctx.asking_mint,
        asking_amount,
        initialize_date: ctx.now,
    };
    ledger.escrows.push(record);
    proof {
        lemma_push_escrow(l1.escrows@, record);
        assert forall|s: u64| #[trigger] has_escrow(ledger.escrows@, s) implies {
            let e = crate::model::escrow_at(ledger.escrows@, s);
            &&& e.offering_amount > 0
            &&& e.asking_amount > 0
            &&& has_holding(ledger.holdings@, Authority::Derived { seed: s }, e.offering_mint)
            &&& balance(ledger.holdings@, Authority::Derived { seed: s }, e.offering_mint)
                == e.offering_amount
        } by {
            if s != seed {
                assert(has_escrow(l0.escrows@, s));
                let e = crate::model::escrow_at(l0.escrows@, s);
                assert(has_holding(l0.holdings@, Authority::Derived { seed: s }, e.offering_mint));
                assert(balance(ledger.holdings@, Authority::Derived { seed: s }, e.offering_mint)
                    as int == balance(l0.holdings@, Authority::Derived { seed: s }, e.offering_mint));
            }
        }
        assert(records_backed(ledger.holdings@, ledger.escrows@));
        assert forall|o: Authority, m: u64| #[trigger] has_holding(ledger.holdings@, o, m) implies match o {
            Authority::Derived { seed: s } => {
                &&& has_escrow(ledger.escrows@, s)
                &&& crate::model::escrow_at(ledger.escrows@, s).offering_mint == m
                &&& crate::model::escrow_at(ledger.escrows@, s).offering_amount == balance(
                    ledger.holdings@,
                    o,
                    m,
                )
            },
            Authority::Party { .. } => true,
        } by {
            match o {
                Authority::Derived { seed: s } => {
                    if o == custody && m == ctx.offering_mint {
                        assert(balance(ledger.holdings@, o, m) == offering_amount);
                    } else {
                        assert(has_holding(l0.holdings@, o, m));
                        assert(balance(ledger.holdings@, o, m) as int == balance(
                            l0.holdings@,
                            o,
                            m,
                        ));
                        assert(s != seed);
                    }
                },
                Authority::Party { .. } => {},
            }
        }
        assert(custodies_backed(ledger.holdings@, ledger.escrows@));
    }
    Ok(())
}

/// `cancel` succeeds exactly here: the record is open, the caller is its
/// initializer, the initializer has a holding for the offered asset to be
/// refunded into, and that balance has room for the refund.
pub open spec fn cancel_allowed(l: Ledger, ctx: Cancel) -> bool {
    &&& l.has_record(ctx.random_seed)
    &&& l.record(ctx.random_seed).initializer == ctx.initializer
    &&& has_holding(
        l.holdings@,
        Authority::Party { key: ctx.initializer },
        l.record(ctx.random_seed).offering_mint,
    )
    &&& balance(
        l.holdings@,
        Authority::Party { key: ctx.initializer },
        l.record(ctx.random_seed).offering_mint,
    ) + l.record(ctx.random_seed).offering_amount <= u64::MAX
}

/// The initializer reclaims the deposit and destroys the record: the full
/// `offering_amount` moves from custody back to the initializer's holding,
/// the emptied custody holding is closed, and the record is deleted.
///
/// All-or-nothing: on any rejection the ledger is unchanged, and no other
/// holding or record is ever touched. Once the record is gone, a later
/// `cancel` or `exchange` against the same seed rejects with `RecordNotFound`.
pub fn cancel(ledger: &mut Ledger, ctx: Cancel) -> (r: Result<(), EscrowError>)
    requires
        old(ledger).wf(),
    ensures
        final(ledger).wf(),
        r is Ok <==> cancel_allowed(*old(ledger), ctx),
        r is Err ==> final(ledger).holdings@ == old(ledger).holdings@ && final(ledger).escrows@
            == old(ledger).escrows@,
        !old(ledger).has_record(ctx.random_seed) ==> r == Err::<(), EscrowError>(
            EscrowError::RecordNotFound,
        ),
        old(ledger).has_record(ctx.random_seed) && old(ledger).record(
            ctx.random_seed,
        ).initializer != ctx.initializer ==> r == Err::<(), EscrowError>(EscrowError::Unauthorized),
        old(ledger).has_record(ctx.random_seed) && old(ledger).record(
            ctx.random_seed,
        ).initializer == ctx.initializer && !has_holding(
            old(ledger).holdings@,
            Authority::Party { key: ctx.initializer },
            old(ledger).record(ctx.random_seed).offering_mint,
        ) ==> r == Err::<(), EscrowError>(EscrowError::MissingHolding),
        old(ledger).has_record(ctx.random_seed) && old(ledger).record(
            ctx.random_seed,
        ).initializer == ctx.initializer && has_holding(
            old(ledger).holdings@,
            Authority::Party { key: ctx.initializer },
            old(ledger).record(ctx.random_seed).offering_mint,
        ) && !cancel_allowed(*old(ledger), ctx) ==> r == Err::<(), EscrowError>(
            EscrowError::BalanceOverflow,
        ),
        r is Ok ==> !final(ledger).has_record(ctx.random_seed),
        r is Ok ==> balance(
            final(ledger).holdings@,
            Authority::Party { key: ctx.initializer },
            old(ledger).record(ctx.random_seed).offering_mint,
        ) as int == balance(
            old(ledger).holdings@,
            Authority::Party { key: ctx.initializer },
            old(ledger).record(ctx.random_seed).offering_mint,
        ) + old(ledger).record(ctx.random_seed).offering_amount,
        r is Ok ==> forall|o: Authority, m: u64|
            #[trigger] balance(final(ledger).holdings@, o, m) as int == (if o
                == (Authority::Derived { seed: ctx.random_seed }) && m == old(ledger).record(
                ctx.random_seed,
            ).offering_mint {
                0
            } else {
                balance(old(ledger).holdings@, o, m) as int + (if o == (Authority::Party {
                    key: ctx.initializer,
                }) && m == old(ledger).record(ctx.random_seed).offering_mint {
                    old(ledger).record(ctx.random_seed).offering_amount as int
                } else {
                    0
                })
            }),
        r is Ok ==> forall|o: Authority, m: u64|
            #[trigger] has_holding(final(ledger).holdings@, o, m) == (has_holding(
                old(ledger).holdings@,
                o,
                m,
            ) && !(o == (Authority::Derived { seed: ctx.random_seed }) && m == old(ledger).record(
                ctx.random_seed,
            ).offering_mint)),
        r is Ok ==> forall|s: u64|
            s != ctx.random_seed ==> #[trigger] has_escrow(final(ledger).escrows@, s) == has_escrow(
                old(ledger).escrows@,
                s,
            ),
        r is Ok ==> forall|s: u64|
            s != ctx.random_seed && has_escrow(old(ledger).escrows@, s) ==> final(ledger).record(s)
                == old(ledger).record(s),
{
    let seed = ctx.random_seed;
    let idx = match ledger.find_escrow(seed) {
        None => {
            return Err(EscrowError::RecordNotFound);
        },
        Some(i) => i,
    };
    let rec = ledger.escrows[idx];
    proof {
        lemma_escrow_at(ledger.escrows@, idx as int);
    }
    if ctx.initializer != rec.initializer {
        return Err(EscrowError::Unauthorized);
    }
    let dest = Authority::Party { key: ctx.initializer };
    let custody = Authority::Derived { seed };
    let dest_idx = match ledger.find_holding(dest, rec.offering_mint) {
        None => {
            return Err(EscrowError::MissingHolding);
        },
        Some(i) => i,
    };
    proof {
        crate::model::lemma_holding_at(ledger.holdings@, dest_idx as int);
    }
    let dest_amt = ledger.holdings[dest_idx].amount;
    if dest_amt > u64::MAX - rec.offering_amount {
        return Err(EscrowError::BalanceOverflow);
    }
    proof {
        lemma_open_record_custody(*ledger, seed);
    }
    let ghost l0 = *ledger;
    let moved = ledger.transfer(custody, dest, rec.offering_mint, rec.offering_amount);
    match moved {
        Ok(()) => {},
        Err(e) => {
            proof {
                assert(false);
            }
            return Err(e);
        },
    }
    let ghost l1 = *ledger;
    ledger.close_holding(custody, rec.offering_mint);
    let ghost l2 = *ledger;
    let _removed = ledger.escrows.remove(idx);
    proof {
        lemma_remove_escrow(l2.escrows@, idx as int);
        assert forall|s: u64| #[trigger] has_escrow(ledger.escrows@, s) implies {
            let e = crate::model::escrow_at(ledger.escrows@, s);
            &&& e.offering_amount > 0
            &&& e.asking_amount > 0
            &&& has_holding(ledger.holdings@, Authority::Derived { seed: s }, e.offering_mint)
            &&& balance(ledger.holdings@, Authority::Derived { seed: s }, e.offering_mint)
                == e.offering_amount
        } by {
            assert(s != seed);
            assert(has_escrow(l0.escrows@, s));
            let e = crate::model::escrow_at(l0.escrows@, s);
            let k = Authority::Derived { seed: s };
            assert(has_holding(l0.holdings@, k, e.offering_mint));
            assert(balance(l1.holdings@, k, e.offering_mint) as int == balance(
                l0.holdings@,
                k,
                e.offering_mint,
            ));
            assert(has_holding(l1.holdings@, k, e.offering_mint));
            assert(balance(ledger.holdings@, k, e.offering_mint) == balance(
                l1.holdings@,
                k,
                e.offering_mint,
            ));
        }
        assert(records_backed(ledger.holdings@, ledger.escrows@));
        assert forall|o: Authority, m: u64| #[trigger] has_holding(ledger.holdings@, o, m) implies match o {
            Authority::Derived { seed: s } => {
                &&& has_escrow(ledger.escrows@, s)
                &&& crate::model::escrow_at(ledger.escrows@, s).offering_mint == m
                &&& crate::model::escrow_at(ledger.escrows@, s).offering_amount == balance(
                    ledger.holdings@,
                    o,
                    m,
                )
            },
            Authority::Party { .. } => true,
        } by {
            match o {
                Authority::Derived { seed: s } => {
                    assert(!(o == custody && m == rec.offering_mint));
                    assert(has_holding(l1.holdings@, o, m));
                    assert(has_holding(l0.holdings@, o, m));
                    if s == seed {
                        assert(crate::model::escrow_at(l0.escrows@, seed).offering_mint == m);
                        assert(m == rec.offering_mint);
                        assert(false);
                    }
                    assert(balance(l1.holdings@, o, m) as int == balance(l0.holdings@, o, m));
                    assert(balance(ledger.holdings@, o, m) == balance(l1.holdings@, o, m));
                },
                Authority::Party { .. } => {},
            }
        }
        assert(custodies_backed(ledger.holdings@, ledger.escrows@));
    }
    Ok(())
}

/// The taker's offered-asset balance at the moment the deposit is released to
/// it: the balance before the exchange, less the ask the first leg already
/// took from the same holding when the two asset types coincide and the taker
/// is not the initializer.
pub open spec fn taker_offer_mid(l: Ledger, ctx: Exchange) -> int {
    let rec = l.record(ctx.random_seed);
    balance(l.holdings@, Authority::Party { key: ctx.taker }, rec.offering_mint) as int - (
    if rec.offering_mint == rec.asking_mint && ctx.taker != rec.initializer {
        rec.asking_amount as int
    } else {
        0
    })
}

/// `exchange` succeeds exactly here: the record is open, the taker's
/// asking-asset holding covers the ask, and both receiving balances have room
/// for what they are owed.
pub open spec fn exchange_allowed(l: Ledger, ctx: Exchange) -> bool {
    let rec = l.record(ctx.random_seed);
    &&& l.has_record(ctx.random_seed)
    &&& balance(l.holdings@, Authority::Party { key: ctx.taker }, rec.asking_mint)
        >= rec.asking_amount
    &&& (ctx.taker == rec.initializer || balance(
        l.holdings@,
        Authority::Party { key: rec.initializer },
        rec.asking_mint,
    ) + rec.asking_amount <= u64::MAX)
    &&& taker_offer_mid(l, ctx) + rec.offering_amount <= u64::MAX
}

/// Any taker who covers the ask settles the offer: exactly `asking_amount`
/// of the asked asset moves from the taker to the initializer, exactly
/// `offering_amount` of the offered asset moves from custody to the taker,
/// the emptied custody holding is closed, and the record is deleted.
///
/// All-or-nothing: on any rejection the ledger is unchanged, so no state in
/// which only one leg moved is ever reachable. Overpayment is never taken:
/// only `asking_amount` moves, whatever the taker holds. Once the record is
/// gone, a later `cancel` or `exchange` against the same seed rejects with
/// `RecordNotFound`.
pub fn exchange(ledger: &mut Ledger, ctx: Exchange) -> (r: Result<(), EscrowError>)
    requires
        old(ledger).wf(),
    ensures
        final(ledger).wf(),
        r is Ok <==> exchange_allowed(*old(ledger), ctx),
        r is Err ==> final(ledger).holdings@ == old(ledger).holdings@ && final(ledger).escrows@
            == old(ledger).escrows@,
        !old(ledger).has_record(ctx.random_seed) ==> r == Err::<(), EscrowError>(
            EscrowError::RecordNotFound,
        ),
        old(ledger).has_record(ctx.random_seed) && balance(
            old(ledger).holdings@,
            Authority::Party { key: ctx.taker },
            old(ledger).record(ctx.random_seed).asking_mint,
        ) < old(ledger).record(ctx.random_seed).asking_amount ==> r == Err::<(), EscrowError>(
            EscrowError::InsufficientBalance,
        ),
        old(ledger).has_record(ctx.random_seed) && balance(
            old(ledger).holdings@,
            Authority::Party { key: ctx.taker },
            old(ledger).record(ctx.random_seed).asking_mint,
        ) >= old(ledger).record(ctx.random_seed).asking_amount && !exchange_allowed(
            *old(ledger),
            ctx,
        ) ==> r == Err::<(), EscrowError>(EscrowError::BalanceOverflow),
        r is Ok ==> !final(ledger).has_record(ctx.random_seed),
        r is Ok ==> forall|o: Authority, m: u64|
            #[trigger] balance(final(ledger).holdings@, o, m) as int == (if o
                == (Authority::Derived { seed: ctx.random_seed }) && m == old(ledger).record(
                ctx.random_seed,
            ).offering_mint {
                0
            } else {
                balance(old(ledger).holdings@, o, m) as int - (if o == (Authority::Party {
                    key: ctx.taker,
                }) && m == old(ledger).record(ctx.random_seed).asking_mint {
                    old(ledger).record(ctx.random_seed).asking_amount as int
                } else {
                    0
                }) + (if o == (Authority::Party {
                    key: old(ledger).record(ctx.random_seed).initializer,
                }) && m == old(ledger).record(ctx.random_seed).asking_mint {
                    old(ledger).record(ctx.random_seed).asking_amount as int
                } else {
                    0
                }) + (if o == (Authority::Party { key: ctx.taker }) && m == old(ledger).record(
                    ctx.random_seed,
                ).offering_mint {
                    old(ledger).record(ctx.random_seed).offering_amount as int
                } else {
                    0
                })
            }),
        r is Ok ==> forall|o: Authority, m: u64|
            #[trigger] has_holding(final(ledger).holdings@, o, m) == ((has_holding(
                old(ledger).holdings@,
                o,
                m,
            ) || (o == (Authority::Party { key: old(ledger).record(ctx.random_seed).initializer })
                && m == old(ledger).record(ctx.random_seed).asking_mint) || (o
                == (Authority::Party { key: ctx.taker }) && m == old(ledger).record(
                ctx.random_seed,
            ).offering_mint)) && !(o == (Authority::Derived { seed: ctx.random_seed }) && m == old(
                ledger,
            ).record(ctx.random_seed).offering_mint)),
        r is Ok && ctx.taker != old(ledger).record(ctx.random_seed).initializer ==> balance(
            final(ledger).holdings@,
            Authority::Party { key: old(ledger).record(ctx.random_seed).initializer },
            old(ledger).record(ctx.random_seed).asking_mint,
        ) as int == balance(
            old(ledger).holdings@,
            Authority::Party { key: old(ledger).record(ctx.random_seed).initializer },
            old(ledger).record(ctx.random_seed).asking_mint,
        ) + old(ledger).record(ctx.random_seed).asking_amount,
        r is Ok ==> forall|s: u64|
            s != ctx.random_seed ==> #[trigger] has_escrow(final(ledger).escrows@, s) == has_escrow(
                old(ledger).escrows@,
                s,
            ),
        r is Ok ==> forall|s: u64|
            s != ctx.random_seed && has_escrow(old(ledger).escrows@, s) ==> final(ledger).record(s)
                == old(ledger).record(s),
{
    let seed = ctx.random_seed;
    let idx = match ledger.find_escrow(seed) {
        None => {
            return Err(EscrowError::RecordNotFound);
        },
        Some(i) => i,
    };
    let rec = ledger.escrows[idx];
    proof {
        lemma_escrow_at(ledger.escrows@, idx as int);
        lemma_open_record_custody(*ledger, seed);
    }
    let taker = Authority::Party { key: ctx.taker };
    let initializer = Authority::Party { key: rec.initializer };
    let custody = Authority::Derived { seed };
    let taker_ask_bal = ledger.balance_of(taker, rec.asking_mint);
    if taker_ask_bal < rec.asking_amount {
        return Err(EscrowError::InsufficientBalance);
    }
    if ctx.taker != rec.initializer {
        let init_ask_bal = ledger.balance_of(initializer, rec.asking_mint);
        if init_ask_bal > u64::MAX - rec.asking_amount {
            return Err(EscrowError::BalanceOverflow);
        }
    }
    let taker_off_bal = ledger.balance_of(taker, rec.offering_mint);
    let taker_off_mid: u64 = if rec.offering_mint == rec.asking_mint && ctx.taker
        != rec.initializer {
        taker_off_bal - rec.asking_amount
    } else {
        taker_off_bal
    };
    if taker_off_mid > u64::MAX - rec.offering_amount {
        return Err(EscrowError::BalanceOverflow);
    }
    let ghost l0 = *ledger;
    let leg1 = ledger.transfer(taker, initializer, rec.asking_mint, rec.asking_amount);
    match leg1 {
        Ok(()) => {},
        Err(e) => {
            proof {
                assert(false);
            }
            return Err(e);
        },
    }
    let ghost l1 = *ledger;
    proof {
        assert(balance(l1.holdings@, custody, rec.offering_mint) as int == balance(
            l0.holdings@,
            custody,
            rec.offering_mint,
        ));
        assert(balance(l1.holdings@, taker, rec.offering_mint) as int == taker_off_mid as int);
    }
    let leg2 = ledger.transfer(custody, taker, rec.offering_mint, rec.offering_amount);
    match leg2 {
        Ok(()) => {},
        Err(e) => {
            proof {
                assert(false);
            }
            return Err(e);
        },
    }
    let ghost l2 = *ledger;
    proof {
        assert(has_holding(l2.holdings@, custody, rec.offering_mint));
        assert(balance(l2.holdings@, custody, rec.offering_mint) == 0);
    }
    ledger.close_holding(custody, rec.offering_mint);
    let ghost l3 = *ledger;
    let _removed = ledger.escrows.remove(idx);
    proof {
        lemma_remove_escrow(l3.escrows@, idx as int);
        assert forall|s: u64| #[trigger] has_escrow(ledger.escrows@, s) implies {
            let e = crate::model::escrow_at(ledger.escrows@, s);
            &&& e.offering_amount > 0
            &&& e.asking_amount > 0
            &&& has_holding(ledger.holdings@, Authority::Derived { seed: s }, e.offering_mint)
            &&& balance(ledger.holdings@, Authority::Derived { seed: s }, e.offering_mint)
                == e.offering_amount
        } by {
            assert(s != seed);
            assert(has_escrow(l0.escrows@, s));
            let e = crate::model::escrow_at(l0.escrows@, s);
            let k = Authority::Derived { seed: s };
            assert(has_holding(l0.holdings@, k, e.offering_mint));
            assert(balance(l1.holdings@, k, e.offering_mint) as int == balance(
                l0.holdings@,
                k,
                e.offering_mint,
            ));
            assert(balance(l2.holdings@, k, e.offering_mint) as int == balance(
                l1.holdings@,
                k,
                e.offering_mint,
            ));
            assert(has_holding(l2.holdings@, k, e.offering_mint));
            assert(balance(ledger.holdings@, k, e.offering_mint) == balance(
                l2.holdings@,
                k,
                e.offering_mint,
            ));
        }
        assert(records_backed(ledger.holdings@, ledger.escrows@));
        assert forall|o: Authority, m: u64| #[trigger] has_holding(ledger.holdings@, o, m) implies match o {
            Authority::Derived { seed: s } => {
                &&& has_escrow(ledger.escrows@, s)
                &&& crate::model::escrow_at(ledger.escrows@, s).offering_mint == m
                &&& crate::model::escrow_at(ledger.escrows@, s).offering_amount == balance(
                    ledger.holdings@,
                    o,
                    m,
                )
            },
            Authority::Party { .. } => true,
        } by {
            match o {
                Authority::Derived { seed: s } => {
                    assert(!(o == custody && m == rec.offering_mint));
                    assert(has_holding(l2.holdings@, o, m));
                    assert(has_holding(l1.holdings@, o, m));
                    assert(has_holding(l0.holdings@, o, m));
                    if s == seed {
                        assert(crate::model::escrow_at(l0.escrows@, seed).offering_mint == m);
                        assert(m == rec.offering_mint);
                        assert(false);
                    }
                    assert(balance(l1.holdings@, o, m) as int == balance(l0.holdings@, o, m));
                    assert(balance(l2.holdings@, o, m) as int == balance(l1.holdings@, o, m));
                    assert(balance(ledger.holdings@, o, m) == balance(l2.holdings@, o, m));
                },
                Authority::Party { .. } => {},
            }
        }
        assert(custodies_backed(ledger.holdings@, ledger.escrows@));
    }
    Ok(())
}

/// Mutual exclusivity of the terminal transitions: once the record for a seed
/// is gone — as it is after either `cancel` or `exchange` succeeds, and their
/// contracts say so — neither `cancel` nor `exchange` against that seed can
/// succeed again, whoever calls; each then rejects with `RecordNotFound`.
pub proof fn lemma_terminal_transitions_exclusive(
    l: Ledger,
    cancel_ctx: Cancel,
    exchange_ctx: Exchange,
)
    requires
        cancel_ctx.random_seed == exchange_ctx.random_seed,
        !l.has_record(cancel_ctx.random_seed),
    ensures
        !cancel_allowed(l, cancel_ctx),
        !exchange_allowed(l, exchange_ctx),
{
}

/// Idempotent creation guard: while a record for a seed is open, no
/// `initialize` against the same seed can succeed — it rejects with
/// `RecordExists` and moves nothing — so no second deposit is ever taken for
/// one record.
pub proof fn lemma_initialize_never_doubles(
    l: Ledger,
    ctx: Initialize,
    offering_amount: u64,
    asking_amount: u64,
)
    requires
        l.has_record(ctx.random_seed),
    ensures
        !initialize_allowed(l, ctx, offering_amount, asking_amount),
{
}

} // verus!
