use vstd::prelude::*;
use crate::state::{
    balance_key, balance_of, record_written, stored_balance, lemma_balance_key_injective,
    lemma_holds_amount_reads_back,
};
use crate::contract::{
    LedgerError, burn_done, burn_result, init_done, last_credit, transfer_done, transfer_result,
};

verus! {

/// A successful transfer conserves the sum of the two balances involved.
pub proof fn lemma_transfer_conserves(
    m0: Map<Seq<u8>, Seq<u8>>,
    from: Seq<u8>,
    to: Seq<u8>,
    amount: u128,
    r: Result<(), LedgerError>,
    m1: Map<Seq<u8>, Seq<u8>>,
)
    requires
        transfer_done(m0, from, to, amount, r, m1),
        r is Ok,
    ensures
        balance_of(m1, from) + balance_of(m1, to) == balance_of(m0, from) + balance_of(m0, to),
{
    if from != to {
        lemma_holds_amount_reads_back(m1, from, (balance_of(m0, from) - amount) as u128);
        lemma_holds_amount_reads_back(m1, to, (balance_of(m0, to) + amount) as u128);
    }
}

/// A failed transfer leaves the store, and so every balance, exactly as it was.
pub proof fn lemma_failed_transfer_changes_nothing(
    m0: Map<Seq<u8>, Seq<u8>>,
    from: Seq<u8>,
    to: Seq<u8>,
    amount: u128,
    r: Result<(), LedgerError>,
    m1: Map<Seq<u8>, Seq<u8>>,
)
    requires
        transfer_done(m0, from, to, amount, r, m1),
        r is Err,
    ensures
        m1 == m0,
        forall|a: Seq<u8>| #[trigger] stored_balance(m1, a) == stored_balance(m0, a),
{
}

/// A failed burn leaves the store, and so every balance, exactly as it was.
pub proof fn lemma_failed_burn_changes_nothing(
    m0: Map<Seq<u8>, Seq<u8>>,
    from: Seq<u8>,
    amount: u128,
    r: Result<(), LedgerError>,
    m1: Map<Seq<u8>, Seq<u8>>,
)
    requires
        burn_done(m0, from, amount, r, m1),
        r is Err,
    ensures
        m1 == m0,
        forall|a: Seq<u8>| #[trigger] stored_balance(m1, a) == stored_balance(m0, a),
{
}

/// A successful burn lowers the burner's balance by exactly the amount and
/// leaves every other account's record as it was.
pub proof fn lemma_burn_debits_only_burner(
    m0: Map<Seq<u8>, Seq<u8>>,
    from: Seq<u8>,
    amount: u128,
    r: Result<(), LedgerError>,
    m1: Map<Seq<u8>, Seq<u8>>,
)
    requires
        burn_done(m0, from, amount, r, m1),
        r is Ok,
    ensures
        balance_of(m1, from) == balance_of(m0, from) - amount,
        forall|a: Seq<u8>| a != from ==> #[trigger] stored_balance(m1, a) == stored_balance(m0, a),
{
    lemma_holds_amount_reads_back(m1, from, (balance_of(m0, from) - amount) as u128);
    assert forall|a: Seq<u8>| a != from implies #[trigger] stored_balance(m1, a) == stored_balance(
        m0,
        a,
    ) by {
        lemma_record_elsewhere_kept(m0, from, (balance_of(m0, from) - amount) as u128, m1, a);
    }
}

/// Writing the record of one account keeps the record of every other account.
proof fn lemma_record_elsewhere_kept(
    m0: Map<Seq<u8>, Seq<u8>>,
    addr: Seq<u8>,
    amount: u128,
    m1: Map<Seq<u8>, Seq<u8>>,
    other: Seq<u8>,
)
    requires
        record_written(m0, addr, amount, m1),
        other != addr,
    ensures
        stored_balance(m1, other) == stored_balance(m0, other),
{
    let k = balance_key(addr);
    let ko = balance_key(other);
    lemma_balance_key_injective(addr, other);
    assert(m1.remove(k).contains_key(ko) == m0.remove(k).contains_key(ko));
    if m0.contains_key(ko) {
        assert(m1.remove(k)[ko] == m0.remove(k)[ko]);
    }
}

/// An account with no record and the same account with an explicit zero record
/// are alike to the ledger's arithmetic: every balance reads the same, and every
/// transfer and burn has the same outcome.
pub proof fn lemma_absent_reads_as_zero(
    m0: Map<Seq<u8>, Seq<u8>>,
    addr: Seq<u8>,
    m1: Map<Seq<u8>, Seq<u8>>,
)
    requires
        stored_balance(m0, addr) is None,
        record_written(m0, addr, 0, m1),
    ensures
        balance_of(m0, addr) == 0,
        forall|a: Seq<u8>| #[trigger] balance_of(m1, a) == balance_of(m0, a),
        forall|from: Seq<u8>, to: Seq<u8>, amount: u128| #[trigger]
            transfer_result(m1, from, to, amount) == transfer_result(m0, from, to, amount),
        forall|from: Seq<u8>, amount: u128| #[trigger]
            burn_result(m1, from, amount) == burn_result(m0, from, amount),
{
    lemma_holds_amount_reads_back(m1, addr, 0);
    assert forall|a: Seq<u8>| #[trigger] balance_of(m1, a) == balance_of(m0, a) by {
        if a != addr {
            lemma_record_elsewhere_kept(m0, addr, 0, m1, a);
        }
    }
    assert forall|from: Seq<u8>, to: Seq<u8>, amount: u128| #[trigger]
        transfer_result(m1, from, to, amount) == transfer_result(m0, from, to, amount) by {
        assert(balance_of(m1, from) == balance_of(m0, from));
        assert(balance_of(m1, to) == balance_of(m0, to));
    }
    assert forall|from: Seq<u8>, amount: u128| #[trigger]
        burn_result(m1, from, amount) == burn_result(m0, from, amount) by {
        assert(balance_of(m1, from) == balance_of(m0, from));
    }
}

/// The credit at index `i` is the last credit of its account when no later
/// credit names that account.
proof fn lemma_last_credit_at(cs: Seq<(Seq<u8>, u128)>, i: int)
    requires
        0 <= i < cs.len(),
        forall|j: int| i < j < cs.len() ==> #[trigger] cs[j].0 != cs[i].0,
    ensures
        last_credit(cs, cs[i].0) == Some(cs[i].1),
    decreases cs.len(),
{
    if i < cs.len() - 1 {
        let rest = cs.drop_last();
        assert(cs[cs.len() - 1].0 != cs[i].0);
        assert(rest[i] == cs[i]);
        assert forall|j: int| i < j < rest.len() implies #[trigger] rest[j].0 != rest[i].0 by {
            assert(rest[j] == cs[j]);
        }
        lemma_last_credit_at(rest, i);
    }
}

/// Genesis with an account credited more than once: the last credit wins.
pub proof fn lemma_init_last_credit_wins(
    m0: Map<Seq<u8>, Seq<u8>>,
    cs: Seq<(Seq<u8>, u128)>,
    m1: Map<Seq<u8>, Seq<u8>>,
    i: int,
)
    requires
        init_done(m0, cs, m1),
        0 <= i < cs.len(),
        forall|j: int| i < j < cs.len() ==> #[trigger] cs[j].0 != cs[i].0,
    ensures
        stored_balance(m1, cs[i].0) == Some(cs[i].1),
{
    lemma_last_credit_at(cs, i);
    assert(last_credit(cs, cs[i].0) is Some);
    lemma_holds_amount_reads_back(m1, cs[i].0, cs[i].1);
}

} // verus!
