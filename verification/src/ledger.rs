//! The ledger: every asset holding and every open escrow record, together
//! with the transfer primitive the transitions are built on.

use vstd::prelude::*;

use crate::model::{
    balance, escrow_at, escrow_index, escrows_unique, has_escrow, has_holding, holding_key_is,
    holdings_unique, lemma_escrow_at, lemma_holding_at, lemma_push_holding, lemma_remove_holding,
    lemma_update_holding,
};
use crate::state::{Authority, Escrow, EscrowError, Holding};

verus! {

/// Every open record's deposit sits in full in its custody holding: the
/// record's quantities are positive, and the holding of the record's derived
/// authority for the offered asset holds exactly `offering_amount`.
pub open spec fn records_backed(hs: Seq<Holding>, es: Seq<Escrow>) -> bool {
    forall|s: u64| #[trigger] has_escrow(es, s) ==> {
        let e = escrow_at(es, s);
        &&& e.offering_amount > 0
        &&& e.asking_amount > 0
        &&& has_holding(hs, Authority::Derived { seed: s }, e.offering_mint)
        &&& balance(hs, Authority::Derived { seed: s }, e.offering_mint) == e.offering_amount
    }
}

/// A holding owned by a derived authority exists only as the custody of the
/// open record it was derived from, for that record's offered asset and
/// amount.
pub open spec fn custodies_backed(hs: Seq<Holding>, es: Seq<Escrow>) -> bool {
    forall|o: Authority, m: u64| #[trigger] has_holding(hs, o, m) ==> match o {
        Authority::Derived { seed } => {
            &&& has_escrow(es, seed)
            &&& escrow_at(es, seed).offering_mint == m
            &&& escrow_at(es, seed).offering_amount == balance(hs, o, m)
        },
        Authority::Party { .. } => true,
    }
}

/// The whole state of the system: the asset holdings of every party and every
/// custody authority, and the open escrow records.
pub struct Ledger {
    pub holdings: Vec<Holding>,
    pub escrows: Vec<Escrow>,
}

impl Ledger {
    /// The balance of `owner` in `mint` (0 where no holding exists).
    pub open spec fn balance_of_spec(self, owner: Authority, mint: u64) -> u64 {
        balance(self.holdings@, owner, mint)
    }

    /// A holding of `owner` for `mint` exists.
    pub open spec fn holds(self, owner: Authority, mint: u64) -> bool {
        has_holding(self.holdings@, owner, mint)
    }

    /// An open record with this seed exists.
    pub open spec fn has_record(self, seed: u64) -> bool {
        has_escrow(self.escrows@, seed)
    }

    /// The open record with this seed (meaningful only when it exists).
    pub open spec fn record(self, seed: u64) -> Escrow {
        escrow_at(self.escrows@, seed)
    }

    /// Well-formedness: holdings are keyed by `(owner, mint)`, records by
    /// seed, every open record's deposit sits in full in its custody holding,
    /// and every custody holding belongs to an open record. Established by
    /// `new` and preserved by every transition.
    pub open spec fn wf(self) -> bool {
        &&& holdings_unique(self.holdings@)
        &&& escrows_unique(self.escrows@)
        &&& records_backed(self.holdings@, self.escrows@)
        &&& custodies_backed(self.holdings@, self.escrows@)
    }

    /// An empty ledger: no holdings, no records.
    pub fn new() -> (r: Ledger)
        ensures
            r.wf(),
            r.holdings@.len() == 0,
            r.escrows@.len() == 0,
    {
        Ledger { holdings: Vec::new(), escrows: Vec::new() }
    }

    /// The position of the holding of `owner` for `mint`, if one exists.
    pub(crate) fn find_holding(&self, owner: Authority, mint: u64) -> (r: Option<usize>)
        ensures
            match r {
                Some(i) => i < self.holdings@.len() && holding_key_is(
                    self.holdings@[i as int],
                    owner,
                    mint,
                ),
                None => !has_holding(self.holdings@, owner, mint),
            },
    {
        let n = self.holdings.len();
        let mut k: usize = 0;
        while k < n
            invariant
                n == self.holdings@.len(),
                k <= n,
                forall|j: int| 0 <= j < k ==> !holding_key_is(#[trigger] self.holdings@[j], owner, mint),
            decreases n - k,
        {
            let h = self.holdings[k];
            if h.owner == owner && h.mint == mint {
                return Some(k);
            }
            k = k + 1;
        }
        None
    }

    /// The position of the record with this seed, if one exists.
    pub(crate) fn find_escrow(&self, seed: u64) -> (r: Option<usize>)
        ensures
            match r {
                Some(i) => i < self.escrows@.len() && self.escrows@[i as int].random_seed == seed,
                None => !has_escrow(self.escrows@, seed),
            },
    {
        let n = self.escrows.len();
        let mut k: usize = 0;
        while k < n
            invariant
                n == self.escrows@.len(),
                k <= n,
                forall|j: int| 0 <= j < k ==> (#[trigger] self.escrows@[j]).random_seed != seed,
            decreases n - k,
        {
            if self.escrows[k].random_seed == seed {
                return Some(k);
            }
            k = k + 1;
        }
        None
    }

    /// Overwrite the amount of the holding at `i`, keeping its key.
    pub(crate) fn set_holding_amount(&mut self, i: usize, amount: u64)
        requires
            i < old(self).holdings@.len(),
        ensures
            final(self).holdings@ == old(self).holdings@.update(
                i as int,
                (Holding {
                    owner: old(self).holdings@[i as int].owner,
                    mint: old(self).holdings@[i as int].mint,
                    amount,
                }),
            ),
            final(self).escrows@ == old(self).escrows@,
    {
        let h = self.holdings[i];
        let h2 = Holding { owner: h.owner, mint: h.mint, amount };
        let _replaced = self.holdings.remove(i);
        self.holdings.insert(i, h2);
        proof {
            assert(self.holdings@ =~= old(self).holdings@.update(i as int, h2));
        }
    }

    /// Move `amount` units of `mint` from `from` to `to`, all or nothing:
    /// the ledger's fungible-asset transfer primitive. It fails, leaving
    /// every holding untouched, when the paying holding does not cover
    /// `amount` or the receiving balance has no room for it; a receiving
    /// holding that does not exist yet is created.
    pub(crate) fn transfer(
        &mut self,
        from: Authority,
        to: Authority,
        mint: u64,
        amount: u64,
    ) -> (r: Result<(), EscrowError>)
        requires
            holdings_unique(old(self).holdings@),
            amount > 0,
        ensures
            holdings_unique(final(self).holdings@),
            final(self).escrows@ == old(self).escrows@,
            r is Ok <==> transfer_ok(old(self).holdings@, from, to, mint, amount),
            r is Err ==> final(self).holdings@ == old(self).holdings@,
            balance(old(self).holdings@, from, mint) < amount ==> r == Err::<(), EscrowError>(
                EscrowError::InsufficientBalance,
            ),
            balance(old(self).holdings@, from, mint) >= amount && !transfer_ok(
                old(self).holdings@,
                from,
                to,
                mint,
                amount,
            ) ==> r == Err::<(), EscrowError>(EscrowError::BalanceOverflow),
            r is Ok ==> forall|o: Authority, m: u64|
                #[trigger] balance(final(self).holdings@, o, m) as int == balance(
                    old(self).holdings@,
                    o,
                    m,
                ) as int - (if o == from && m == mint {
                    amount as int
                } else {
                    0
                }) + (if o == to && m == mint {
                    amount as int
                } else {
                    0
                }),
            r is Ok ==> forall|o: Authority, m: u64|
                #[trigger] has_holding(final(self).holdings@, o, m) == (has_holding(
                    old(self).holdings@,
                    o,
                    m,
                ) || (o == to && m == mint)),
    {
        let from_idx = match self.find_holding(from, mint) {
            Some(i) => i,
            None => {
                return Err(EscrowError::InsufficientBalance);
            },
        };
        proof {
            lemma_holding_at(self.holdings@, from_idx as int);
        }
        let from_amt = self.holdings[from_idx].amount;
        if from_amt < amount {
            return Err(EscrowError::InsufficientBalance);
        }
        if from == to {
            return Ok(());
        }
        match self.find_holding(to, mint) {
            Some(to_idx) => {
                proof {
                    lemma_holding_at(self.holdings@, to_idx as int);
                }
                let to_amt = self.holdings[to_idx].amount;
                if to_amt > u64::MAX - amount {
                    return Err(EscrowError::BalanceOverflow);
                }
                let ghost hs0 = self.holdings@;
                self.set_holding_amount(from_idx, from_amt - amount);
                proof {
                    lemma_update_holding(
                        hs0,
                        from_idx as int,
                        (Holding { owner: from, mint, amount: (from_amt - amount) as u64 }),
                    );
                }
                let ghost hs1 = self.holdings@;
                self.set_holding_amount(to_idx, to_amt + amount);
                proof {
                    assert(hs1[to_idx as int] == hs0[to_idx as int]);
                    lemma_update_holding(
                        hs1,
                        to_idx as int,
                        (Holding { owner: to, mint, amount: (to_amt + amount) as u64 }),
                    );
                }
                Ok(())
            },
            None => {
                let ghost hs0 = self.holdings@;
                self.set_holding_amount(from_idx, from_amt - amount);
                proof {
                    lemma_update_holding(
                        hs0,
                        from_idx as int,
                        (Holding { owner: from, mint, amount: (from_amt - amount) as u64 }),
                    );
                }
                let ghost hs1 = self.holdings@;
                self.holdings.push(Holding { owner: to, mint, amount });
                proof {
                    lemma_push_holding(hs1, (Holding { owner: to, mint, amount }));
                }
                Ok(())
            },
        }
    }

    /// The balance of `owner` in `mint`: the amount of the matching holding,
    /// or 0 where none exists.
    pub fn balance_of(&self, owner: Authority, mint: u64) -> (r: u64)
        requires
            holdings_unique(self.holdings@),
        ensures
            r == balance(self.holdings@, owner, mint),
    {
        match self.find_holding(owner, mint) {
            Some(i) => {
                proof {
                    lemma_holding_at(self.holdings@, i as int);
                }
                self.holdings[i].amount
            },
            None => 0,
        }
    }

    /// Close the now-empty holding of `owner` for `mint`: the runtime's
    /// account-close primitive, which only ever applies to a zero balance.
    pub(crate) fn close_holding(&mut self, owner: Authority, mint: u64)
        requires
            holdings_unique(old(self).holdings@),
            has_holding(old(self).holdings@, owner, mint),
            balance(old(self).holdings@, owner, mint) == 0,
        ensures
            holdings_unique(final(self).holdings@),
            final(self).escrows@ == old(self).escrows@,
            !has_holding(final(self).holdings@, owner, mint),
            forall|o: Authority, m: u64|
                !(o == owner && m == mint) ==> #[trigger] has_holding(final(self).holdings@, o, m)
                    == has_holding(old(self).holdings@, o, m),
            forall|o: Authority, m: u64|
                !(o == owner && m == mint) ==> #[trigger] balance(final(self).holdings@, o, m)
                    == balance(old(self).holdings@, o, m),
            forall|o: Authority, m: u64|
                #[trigger] balance(final(self).holdings@, o, m) == (if o == owner && m == mint {
                    0u64
                } else {
                    balance(old(self).holdings@, o, m)
                }),
    {
        if let Some(i) = self.find_holding(owner, mint) {
            proof {
                lemma_holding_at(self.holdings@, i as int);
                lemma_remove_holding(self.holdings@, i as int);
            }
            let _closed = self.holdings.remove(i);
        } else {
            proof {
                assert(false);
            }
        }
    }

    /// Create or top up the holding of an ordinary party: the surrounding
    /// runtime's mint/airdrop primitive, used to set balances up. Only a
    /// party's holding can be funded; custody holdings come into being
    /// through `initialize` alone.
    pub fn fund(&mut self, key: u64, mint: u64, amount: u64) -> (r: Result<(), EscrowError>)
        requires
            old(self).wf(),
        ensures
            final(self).wf(),
            final(self).escrows@ == old(self).escrows@,
            r is Ok <==> balance(old(self).holdings@, Authority::Party { key }, mint) + amount
                <= u64::MAX,
            r is Err ==> final(self).holdings@ == old(self).holdings@ && r == Err::<
                (),
                EscrowError,
            >(EscrowError::BalanceOverflow),
            r is Ok ==> balance(final(self).holdings@, Authority::Party { key }, mint) as int
                == balance(old(self).holdings@, Authority::Party { key }, mint) + amount,
            r is Ok ==> forall|o: Authority, m: u64|
                !(o == (Authority::Party { key }) && m == mint) ==> #[trigger] balance(
                    final(self).holdings@,
                    o,
                    m,
                ) == balance(old(self).holdings@, o, m),
            r is Ok ==> forall|o: Authority, m: u64|
                #[trigger] has_holding(final(self).holdings@, o, m) == (has_holding(
                    old(self).holdings@,
                    o,
                    m,
                ) || (o == (Authority::Party { key }) && m == mint)),
    {
        let owner = Authority::Party { key };
        let prior = match self.find_holding(owner, mint) {
            Some(i) => {
                proof {
                    lemma_holding_at(self.holdings@, i as int);
                }
                self.holdings[i].amount
            },
            None => 0,
        };
        if prior > u64::MAX - amount {
            return Err(EscrowError::BalanceOverflow);
        }
        let ghost l0 = *self;
        match self.find_holding(owner, mint) {
            Some(i) => {
                proof {
                    lemma_holding_at(self.holdings@, i as int);
                }
                let cur = self.holdings[i].amount;
                self.set_holding_amount(i, cur + amount);
                proof {
                    lemma_update_holding(
                        l0.holdings@,
                        i as int,
                        (Holding { owner, mint, amount: (cur + amount) as u64 }),
                    );
                }
            },
            None => {
                self.holdings.push(Holding { owner, mint, amount });
                proof {
                    lemma_push_holding(l0.holdings@, (Holding { owner, mint, amount }));
                }
            },
        }
        proof {
            assert forall|s: u64| #[trigger] has_escrow(self.escrows@, s) implies {
                let e = escrow_at(self.escrows@, s);
                &&& e.offering_amount > 0
                &&& e.asking_amount > 0
                &&& has_holding(self.holdings@, Authority::Derived { seed: s }, e.offering_mint)
                &&& balance(self.holdings@, Authority::Derived { seed: s }, e.offering_mint)
                    == e.offering_amount
            } by {
                let e = escrow_at(l0.escrows@, s);
                let k = Authority::Derived { seed: s };
                assert(has_holding(l0.holdings@, k, e.offering_mint));
                assert(balance(self.holdings@, k, e.offering_mint) == balance(
                    l0.holdings@,
                    k,
                    e.offering_mint,
                ));
            }
            assert(records_backed(self.holdings@, self.escrows@));
            assert forall|o: Authority, m: u64| #[trigger] has_holding(self.holdings@, o, m) implies match o {
                Authority::Derived { seed: s } => {
                    &&& has_escrow(self.escrows@, s)
                    &&& escrow_at(self.escrows@, s).offering_mint == m
                    &&& escrow_at(self.escrows@, s).offering_amount == balance(
                        self.holdings@,
                        o,
                        m,
                    )
                },
                Authority::Party { .. } => true,
            } by {
                match o {
                    Authority::Derived { seed: s } => {
                        assert(has_holding(l0.holdings@, o, m));
                        assert(balance(self.holdings@, o, m) == balance(l0.holdings@, o, m));
                    },
                    Authority::Party { .. } => {},
                }
            }
            assert(custodies_backed(self.holdings@, self.escrows@));
        }
        Ok(())
    }

    /// Whether an open record with this seed exists.
    pub fn record_exists(&self, seed: u64) -> (r: bool)
        ensures
            r == self.has_record(seed),
    {
        match self.find_escrow(seed) {
            Some(_) => true,
            None => false,
        }
    }

    /// The open record with this seed, if any.
    pub fn get_record(&self, seed: u64) -> (r: Option<Escrow>)
        requires
            self.wf(),
        ensures
            match r {
                Some(e) => self.has_record(seed) && e == self.record(seed),
                None => !self.has_record(seed),
            },
    {
        match self.find_escrow(seed) {
            Some(i) => {
                proof {
                    lemma_escrow_at(self.escrows@, i as int);
                }
                Some(self.escrows[i])
            },
            None => None,
        }
    }

    /// Whether a holding of `owner` for `mint` exists.
    pub fn holding_exists(&self, owner: Authority, mint: u64) -> (r: bool)
        ensures
            r == self.holds(owner, mint),
    {
        match self.find_holding(owner, mint) {
            Some(_) => true,
            None => false,
        }
    }
}

/// The transfer can be applied: the paying holding covers `amount`, and the
/// receiving balance has room for it (a transfer back to the payer moves
/// nothing and always has room).
pub open spec fn transfer_ok(
    hs: Seq<Holding>,
    from: Authority,
    to: Authority,
    mint: u64,
    amount: u64,
) -> bool {
    &&& balance(hs, from, mint) >= amount
    &&& (from == to || balance(hs, to, mint) + amount <= u64::MAX)
}

/// While no record with `seed` is open, its derived authority holds nothing:
/// custody balances exist only as the deposits of open records.
pub proof fn lemma_no_record_no_custody(l: Ledger, seed: u64, mint: u64)
    requires
        l.wf(),
        !l.has_record(seed),
    ensures
        !has_holding(l.holdings@, Authority::Derived { seed }, mint),
        balance(l.holdings@, Authority::Derived { seed }, mint) == 0,
{
    assert(!has_holding(l.holdings@, Authority::Derived { seed }, mint));
}

/// While a record is open, its custody holding holds exactly the offered
/// amount of the offered asset, and both of its quantities are positive.
pub proof fn lemma_open_record_custody(l: Ledger, seed: u64)
    requires
        l.wf(),
        l.has_record(seed),
    ensures
        l.record(seed).offering_amount > 0,
        l.record(seed).asking_amount > 0,
        l.record(seed).random_seed == seed,
        has_holding(l.holdings@, Authority::Derived { seed }, l.record(seed).offering_mint),
        balance(l.holdings@, Authority::Derived { seed }, l.record(seed).offering_mint)
            == l.record(seed).offering_amount,
{
    let k = escrow_index(l.escrows@, seed);
    assert(0 <= k < l.escrows@.len() && l.escrows@[k].random_seed == seed);
}

} // verus!
