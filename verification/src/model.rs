//! The mathematical model of a ledger: lookup of holdings by `(owner, mint)`
//! and of escrow records by seed, over sequences, together with the lemmas
//! that relate lookup to the sequence operations the executable code uses.

use vstd::prelude::*;

use crate::state::{Authority, Escrow, Holding};

verus! {

/// `h` is the holding of `owner` for the asset type `mint`.
pub open spec fn holding_key_is(h: Holding, owner: Authority, mint: u64) -> bool {
    h.owner == owner && h.mint == mint
}

/// No two holdings share an `(owner, mint)` key.
pub open spec fn holdings_unique(hs: Seq<Holding>) -> bool {
    forall|i: int, j: int|
        0 <= i < j < hs.len() ==> !holding_key_is(#[trigger] hs[i], (#[trigger] hs[j]).owner, hs[j].mint)
}

/// A holding of `owner` for `mint` exists.
pub open spec fn has_holding(hs: Seq<Holding>, owner: Authority, mint: u64) -> bool {
    exists|i: int| 0 <= i < hs.len() && holding_key_is(#[trigger] hs[i], owner, mint)
}

/// The position of the holding of `owner` for `mint` (meaningful only when it
/// exists).
pub open spec fn holding_index(hs: Seq<Holding>, owner: Authority, mint: u64) -> int {
    choose|i: int| 0 <= i < hs.len() && holding_key_is(#[trigger] hs[i], owner, mint)
}

/// The balance of `owner` in `mint`: the amount of the matching holding, or 0
/// where none exists.
pub open spec fn balance(hs: Seq<Holding>, owner: Authority, mint: u64) -> u64 {
    if has_holding(hs, owner, mint) {
        hs[holding_index(hs, owner, mint)].amount
    } else {
        0
    }
}

/// No two records share a seed.
pub open spec fn escrows_unique(es: Seq<Escrow>) -> bool {
    forall|i: int, j: int|
        0 <= i < j < es.len() ==> (#[trigger] es[i]).random_seed != (#[trigger] es[j]).random_seed
}

/// A record with this seed exists.
pub open spec fn has_escrow(es: Seq<Escrow>, seed: u64) -> bool {
    exists|i: int| 0 <= i < es.len() && (#[trigger] es[i]).random_seed == seed
}

/// The position of the record with this seed (meaningful only when it exists).
pub open spec fn escrow_index(es: Seq<Escrow>, seed: u64) -> int {
    choose|i: int| 0 <= i < es.len() && (#[trigger] es[i]).random_seed == seed
}

/// The record with this seed (meaningful only when it exists).
pub open spec fn escrow_at(es: Seq<Escrow>, seed: u64) -> Escrow {
    es[escrow_index(es, seed)]
}

/// In a key-unique ledger, the element at `i` is the lookup result for its
/// own key.
pub proof fn lemma_holding_at(hs: Seq<Holding>, i: int)
    requires
        holdings_unique(hs),
        0 <= i < hs.len(),
    ensures
        has_holding(hs, hs[i].owner, hs[i].mint),
        holding_index(hs, hs[i].owner, hs[i].mint) == i,
        balance(hs, hs[i].owner, hs[i].mint) == hs[i].amount,
{
    assert(holding_key_is(hs[i], hs[i].owner, hs[i].mint));
    let j = holding_index(hs, hs[i].owner, hs[i].mint);
    assert(0 <= j < hs.len() && holding_key_is(hs[j], hs[i].owner, hs[i].mint));
}

/// In a seed-unique record store, the element at `i` is the lookup result for
/// its own seed.
pub proof fn lemma_escrow_at(es: Seq<Escrow>, i: int)
    requires
        escrows_unique(es),
        0 <= i < es.len(),
    ensures
        has_escrow(es, es[i].random_seed),
        escrow_index(es, es[i].random_seed) == i,
        escrow_at(es, es[i].random_seed) == es[i],
{
    let j = escrow_index(es, es[i].random_seed);
    assert(0 <= j < es.len() && es[j].random_seed == es[i].random_seed);
}

/// Overwriting the amount of the holding at `i` (its key unchanged) moves
/// exactly that key's balance and leaves every other key untouched.
pub proof fn lemma_update_holding(hs: Seq<Holding>, i: int, h: Holding)
    requires
        holdings_unique(hs),
        0 <= i < hs.len(),
        h.owner == hs[i].owner,
        h.mint == hs[i].mint,
    ensures
        holdings_unique(hs.update(i, h)),
        has_holding(hs.update(i, h), h.owner, h.mint),
        balance(hs.update(i, h), h.owner, h.mint) == h.amount,
        forall|o: Authority, m: u64|
            !(o == h.owner && m == h.mint) ==> #[trigger] has_holding(hs.update(i, h), o, m)
                == has_holding(hs, o, m),
        forall|o: Authority, m: u64|
            !(o == h.owner && m == h.mint) ==> #[trigger] balance(hs.update(i, h), o, m)
                == balance(hs, o, m),
{
    let hs2 = hs.update(i, h);
    assert forall|p: int, q: int| 0 <= p < q < hs2.len() implies !holding_key_is(
        hs2[p],
        hs2[q].owner,
        hs2[q].mint,
    ) by {
        assert(!holding_key_is(hs[p], hs[q].owner, hs[q].mint));
    }
    lemma_holding_at(hs2, i);
    assert forall|o: Authority, m: u64| !(o == h.owner && m == h.mint) implies #[trigger] has_holding(
        hs2,
        o,
        m,
    ) == has_holding(hs, o, m) by {
        if has_holding(hs, o, m) {
            let k = holding_index(hs, o, m);
            assert(holding_key_is(hs[k], o, m));
            assert(k != i);
            assert(holding_key_is(hs2[k], o, m));
            lemma_holding_at(hs, k);
            lemma_holding_at(hs2, k);
        }
        if has_holding(hs2, o, m) {
            let k = holding_index(hs2, o, m);
            assert(holding_key_is(hs2[k], o, m));
            assert(k != i);
            assert(holding_key_is(hs[k], o, m));
            lemma_holding_at(hs, k);
            lemma_holding_at(hs2, k);
        }
    }
    assert forall|o: Authority, m: u64| !(o == h.owner && m == h.mint) implies #[trigger] balance(
        hs2,
        o,
        m,
    ) == balance(hs, o, m) by {
        if has_holding(hs, o, m) {
            let k = holding_index(hs, o, m);
            assert(holding_key_is(hs[k], o, m));
            assert(k != i);
            assert(holding_key_is(hs2[k], o, m));
            lemma_holding_at(hs, k);
            lemma_holding_at(hs2, k);
        }
        if has_holding(hs2, o, m) {
            let k = holding_index(hs2, o, m);
            assert(holding_key_is(hs2[k], o, m));
            assert(k != i);
            assert(holding_key_is(hs[k], o, m));
            lemma_holding_at(hs, k);
            lemma_holding_at(hs2, k);
        }
    }
}

/// Appending a holding with a fresh key creates that key's balance and leaves
/// every other key untouched.
pub proof fn lemma_push_holding(hs: Seq<Holding>, h: Holding)
    requires
        holdings_unique(hs),
        !has_holding(hs, h.owner, h.mint),
    ensures
        holdings_unique(hs.push(h)),
        has_holding(hs.push(h), h.owner, h.mint),
        balance(hs.push(h), h.owner, h.mint) == h.amount,
        forall|o: Authority, m: u64|
            !(o == h.owner && m == h.mint) ==> #[trigger] has_holding(hs.push(h), o, m)
                == has_holding(hs, o, m),
        forall|o: Authority, m: u64|
            !(o == h.owner && m == h.mint) ==> #[trigger] balance(hs.push(h), o, m)
                == balance(hs, o, m),
{
    let hs2 = hs.push(h);
    let n = hs.len() as int;
    assert(hs2[n] == h);
    assert forall|p: int, q: int| 0 <= p < q < hs2.len() implies !holding_key_is(
        hs2[p],
        hs2[q].owner,
        hs2[q].mint,
    ) by {
        if q < n {
            assert(!holding_key_is(hs[p], hs[q].owner, hs[q].mint));
        } else {
            assert(hs2[q] == h);
            if holding_key_is(hs2[p], h.owner, h.mint) {
                assert(holding_key_is(hs[p], h.owner, h.mint));
                assert(has_holding(hs, h.owner, h.mint));
            }
        }
    }
    lemma_holding_at(hs2, n);
    assert forall|o: Authority, m: u64| !(o == h.owner && m == h.mint) implies #[trigger] has_holding(
        hs2,
        o,
        m,
    ) == has_holding(hs, o, m) by {
        if has_holding(hs, o, m) {
            let k = holding_index(hs, o, m);
            assert(holding_key_is(hs2[k], o, m));
            lemma_holding_at(hs, k);
            lemma_holding_at(hs2, k);
        }
        if has_holding(hs2, o, m) {
            let k = holding_index(hs2, o, m);
            assert(holding_key_is(hs2[k], o, m));
            assert(k != n);
            assert(holding_key_is(hs[k], o, m));
            lemma_holding_at(hs, k);
            lemma_holding_at(hs2, k);
        }
    }
    assert forall|o: Authority, m: u64| !(o == h.owner && m == h.mint) implies #[trigger] balance(
        hs2,
        o,
        m,
    ) == balance(hs, o, m) by {
        if has_holding(hs, o, m) {
            let k = holding_index(hs, o, m);
            assert(holding_key_is(hs2[k], o, m));
            lemma_holding_at(hs, k);
            lemma_holding_at(hs2, k);
        }
        if has_holding(hs2, o, m) {
            let k = holding_index(hs2, o, m);
            assert(holding_key_is(hs2[k], o, m));
            assert(k != n);
            assert(holding_key_is(hs[k], o, m));
            lemma_holding_at(hs, k);
            lemma_holding_at(hs2, k);
        }
    }
}

/// Removing the holding at `i` erases exactly that key and leaves every other
/// key untouched.
pub proof fn lemma_remove_holding(hs: Seq<Holding>, i: int)
    requires
        holdings_unique(hs),
        0 <= i < hs.len(),
    ensures
        holdings_unique(hs.remove(i)),
        !has_holding(hs.remove(i), hs[i].owner, hs[i].mint),
        forall|o: Authority, m: u64|
            !(o == hs[i].owner && m == hs[i].mint) ==> #[trigger] has_holding(hs.remove(i), o, m)
                == has_holding(hs, o, m),
        forall|o: Authority, m: u64|
            !(o == hs[i].owner && m == hs[i].mint) ==> #[trigger] balance(hs.remove(i), o, m)
                == balance(hs, o, m),
{
    let hs2 = hs.remove(i);
    assert forall|p: int, q: int| 0 <= p < q < hs2.len() implies !holding_key_is(
        hs2[p],
        hs2[q].owner,
        hs2[q].mint,
    ) by {
        let p0: int = if p < i { p } else { p + 1 };
        let q0: int = if q < i { q } else { q + 1 };
        assert(hs2[p] == hs[p0]);
        assert(hs2[q] == hs[q0]);
        assert(!holding_key_is(hs[p0], hs[q0].owner, hs[q0].mint));
    }
    if has_holding(hs2, hs[i].owner, hs[i].mint) {
        let k = holding_index(hs2, hs[i].owner, hs[i].mint);
        assert(holding_key_is(hs2[k], hs[i].owner, hs[i].mint));
        let k0: int = if k < i { k } else { k + 1 };
        assert(hs2[k] == hs[k0]);
        assert(k0 != i);
        assert(holding_key_is(hs[k0], hs[i].owner, hs[i].mint));
        assert(holding_key_is(hs[i], hs[i].owner, hs[i].mint));
        assert(false);
    }
    assert forall|o: Authority, m: u64| !(o == hs[i].owner && m == hs[i].mint)
        implies #[trigger] has_holding(hs2, o, m) == has_holding(hs, o, m) by {
        if has_holding(hs, o, m) {
            let k0 = holding_index(hs, o, m);
            assert(holding_key_is(hs[k0], o, m));
            assert(k0 != i);
            let k: int = if k0 < i { k0 } else { k0 - 1 };
            assert(hs2[k] == hs[k0]);
            lemma_holding_at(hs, k0);
            lemma_holding_at(hs2, k);
        }
        if has_holding(hs2, o, m) {
            let k = holding_index(hs2, o, m);
            assert(holding_key_is(hs2[k], o, m));
            let k0: int = if k < i { k } else { k + 1 };
            assert(hs2[k] == hs[k0]);
            lemma_holding_at(hs, k0);
            lemma_holding_at(hs2, k);
        }
    }
    assert forall|o: Authority, m: u64| !(o == hs[i].owner && m == hs[i].mint)
        implies #[trigger] balance(hs2, o, m) == balance(hs, o, m) by {
        if has_holding(hs, o, m) {
            let k0 = holding_index(hs, o, m);
            assert(holding_key_is(hs[k0], o, m));
            assert(k0 != i);
            let k: int = if k0 < i { k0 } else { k0 - 1 };
            assert(hs2[k] == hs[k0]);
            lemma_holding_at(hs, k0);
            lemma_holding_at(hs2, k);
        }
        if has_holding(hs2, o, m) {
            let k = holding_index(hs2, o, m);
            assert(holding_key_is(hs2[k], o, m));
            let k0: int = if k < i { k } else { k + 1 };
            assert(hs2[k] == hs[k0]);
            lemma_holding_at(hs, k0);
            lemma_holding_at(hs2, k);
        }
    }
}

/// Appending a record with a fresh seed creates that record and leaves every
/// other seed's lookup untouched.
pub proof fn lemma_push_escrow(es: Seq<Escrow>, e: Escrow)
    requires
        escrows_unique(es),
        !has_escrow(es, e.random_seed),
    ensures
        escrows_unique(es.push(e)),
        has_escrow(es.push(e), e.random_seed),
        escrow_at(es.push(e), e.random_seed) == e,
        forall|s: u64|
            s != e.random_seed ==> #[trigger] has_escrow(es.push(e), s) == has_escrow(es, s),
        forall|s: u64|
            s != e.random_seed && has_escrow(es, s) ==> #[trigger] escrow_at(es.push(e), s)
                == escrow_at(es, s),
{
    let es2 = es.push(e);
    let n = es.len() as int;
    assert(es2[n] == e);
    assert forall|p: int, q: int| 0 <= p < q < es2.len() implies es2[p].random_seed
        != es2[q].random_seed by {
        if q < n {
            assert(es2[p] == es[p] && es2[q] == es[q]);
        } else {
            assert(es2[q] == e);
            if es2[p].random_seed == e.random_seed {
                assert(es[p].random_seed == e.random_seed);
                assert(has_escrow(es, e.random_seed));
            }
        }
    }
    lemma_escrow_at(es2, n);
    assert forall|s: u64| s != e.random_seed implies #[trigger] has_escrow(es2, s) == has_escrow(
        es,
        s,
    ) by {
        if has_escrow(es, s) {
            let k = escrow_index(es, s);
            assert(es2[k] == es[k]);
            lemma_escrow_at(es, k);
            lemma_escrow_at(es2, k);
        }
        if has_escrow(es2, s) {
            let k = escrow_index(es2, s);
            assert(k != n);
            assert(es2[k] == es[k]);
            lemma_escrow_at(es, k);
            lemma_escrow_at(es2, k);
        }
    }
    assert forall|s: u64| s != e.random_seed && has_escrow(es, s) implies #[trigger] escrow_at(
        es2,
        s,
    ) == escrow_at(es, s) by {
        if has_escrow(es, s) {
            let k = escrow_index(es, s);
            assert(es2[k] == es[k]);
            lemma_escrow_at(es, k);
            lemma_escrow_at(es2, k);
        }
        if has_escrow(es2, s) {
            let k = escrow_index(es2, s);
            assert(k != n);
            assert(es2[k] == es[k]);
            lemma_escrow_at(es, k);
            lemma_escrow_at(es2, k);
        }
    }
}

/// Removing the record at `i` erases exactly that seed and leaves every other
/// seed's lookup untouched.
pub proof fn lemma_remove_escrow(es: Seq<Escrow>, i: int)
    requires
        escrows_unique(es),
        0 <= i < es.len(),
    ensures
        escrows_unique(es.remove(i)),
        !has_escrow(es.remove(i), es[i].random_seed),
        forall|s: u64|
            s != es[i].random_seed ==> #[trigger] has_escrow(es.remove(i), s) == has_escrow(es, s),
        forall|s: u64|
            s != es[i].random_seed && has_escrow(es, s) ==> #[trigger] escrow_at(es.remove(i), s)
                == escrow_at(es, s),
{
    let es2 = es.remove(i);
    assert forall|p: int, q: int| 0 <= p < q < es2.len() implies es2[p].random_seed
        != es2[q].random_seed by {
        let p0: int = if p < i { p } else { p + 1 };
        let q0: int = if q < i { q } else { q + 1 };
        assert(es2[p] == es[p0]);
        assert(es2[q] == es[q0]);
    }
    if has_escrow(es2, es[i].random_seed) {
        let k = escrow_index(es2, es[i].random_seed);
        let k0: int = if k < i { k } else { k + 1 };
        assert(es2[k] == es[k0]);
        assert(k0 != i);
        assert(false);
    }
    assert forall|s: u64| s != es[i].random_seed implies #[trigger] has_escrow(es2, s)
        == has_escrow(es, s) by {
        if has_escrow(es, s) {
            let k0 = escrow_index(es, s);
            assert(k0 != i);
            let k: int = if k0 < i { k0 } else { k0 - 1 };
            assert(es2[k] == es[k0]);
            lemma_escrow_at(es, k0);
            lemma_escrow_at(es2, k);
        }
        if has_escrow(es2, s) {
            let k = escrow_index(es2, s);
            let k0: int = if k < i { k } else { k + 1 };
            assert(es2[k] == es[k0]);
            lemma_escrow_at(es, k0);
            lemma_escrow_at(es2, k);
        }
    }
    assert forall|s: u64| s != es[i].random_seed && has_escrow(es, s) implies #[trigger] escrow_at(
        es2,
        s,
    ) == escrow_at(es, s) by {
        if has_escrow(es, s) {
            let k0 = escrow_index(es, s);
            assert(k0 != i);
            let k: int = if k0 < i { k0 } else { k0 - 1 };
            assert(es2[k] == es[k0]);
            lemma_escrow_at(es, k0);
            lemma_escrow_at(es2, k);
        }
        if has_escrow(es2, s) {
            let k = escrow_index(es2, s);
            let k0: int = if k < i { k } else { k + 1 };
            assert(es2[k] == es[k0]);
            lemma_escrow_at(es, k0);
            lemma_escrow_at(es2, k);
        }
    }
}

} // verus!
