use vstd::prelude::*;
use cosmwasm_std::MemoryStorage;
use crate::state::{
    Balances, ReadonlyBalances, balance_key, balance_of, holds_amount, record_written,
    stored_balance, store_entries, lemma_balance_key_injective,
};

verus! {

/// Why a ledger operation was refused.
#[derive(PartialEq, Eq, Structural, Debug, Clone, Copy)]
pub enum LedgerError {
    /// The debited account holds less than the amount.
    InsufficientFunds,
    /// The credited account would exceed the 128-bit range.
    Overflow,
    /// A queried account has no balance record.
    NotFound,
}

/// One genesis credit: a canonical account address and its starting balance.
pub struct InitBalance {
    pub address: Vec<u8>,
    pub amount: u128,
}

/// The genesis request.
pub struct InitMsg {
    pub balances: Option<Vec<InitBalance>>,
}

/// The mutating requests; the acting account is the caller's own.
pub enum HandleMsg {
    Transfer { to: Vec<u8>, amount: u128 },
    Burn { amount: u128 },
}

/// The read-only requests.
pub enum QueryMsg {
    Balance { address: Vec<u8> },
}

/// The genesis credits as (address, amount) pairs, in order.
pub open spec fn credits(bs: Seq<InitBalance>) -> Seq<(Seq<u8>, u128)> {
    bs.map_values(|b: InitBalance| (b.address@, b.amount))
}

/// The credits that an `InitMsg` asks for.
pub open spec fn msg_credits(msg: InitMsg) -> Seq<(Seq<u8>, u128)> {
    match msg.balances {
        Some(bs) => credits(bs@),
        None => Seq::empty(),
    }
}

/// The amount that the last credit of `addr` in `cs` gives it, if any does.
pub open spec fn last_credit(cs: Seq<(Seq<u8>, u128)>, addr: Seq<u8>) -> Option<u128>
    decreases cs.len(),
{
    if cs.len() == 0 {
        None
    } else if cs.last().0 == addr {
        Some(cs.last().1)
    } else {
        last_credit(cs.drop_last(), addr)
    }
}

/// The record keys that the credits `cs` write.
pub open spec fn credited_keys(cs: Seq<(Seq<u8>, u128)>) -> Set<Seq<u8>>
    decreases cs.len(),
{
    if cs.len() == 0 {
        Set::empty()
    } else {
        credited_keys(cs.drop_last()).insert(balance_key(cs.last().0))
    }
}

/// Genesis: every credited account holds its last credit, and every key that no
/// credit names is as it was.
pub open spec fn init_done(
    m0: Map<Seq<u8>, Seq<u8>>,
    cs: Seq<(Seq<u8>, u128)>,
    m1: Map<Seq<u8>, Seq<u8>>,
) -> bool {
    &&& forall|a: Seq<u8>| #[trigger]
        last_credit(cs, a) is Some ==> holds_amount(m1, a, last_credit(cs, a)->Some_0)
    &&& m1.remove_keys(credited_keys(cs)) == m0.remove_keys(credited_keys(cs))
}

/// What a transfer of `amount` from `from` to `to` returns on the entries `m`.
pub open spec fn transfer_result(
    m: Map<Seq<u8>, Seq<u8>>,
    from: Seq<u8>,
    to: Seq<u8>,
    amount: u128,
) -> Result<(), LedgerError> {
    if amount > balance_of(m, from) {
        Err(LedgerError::InsufficientFunds)
    } else if balance_of(m, to) + amount > u128::MAX {
        Err(LedgerError::Overflow)
    } else {
        Ok(())
    }
}

/// A transfer: the result is `transfer_result`; a failure or a transfer to the
/// sender itself leaves the entries as they were; otherwise the sender is
/// debited, the receiver credited, and no other key changes.
pub open spec fn transfer_done(
    m0: Map<Seq<u8>, Seq<u8>>,
    from: Seq<u8>,
    to: Seq<u8>,
    amount: u128,
    r: Result<(), LedgerError>,
    m1: Map<Seq<u8>, Seq<u8>>,
) -> bool {
    &&& r == transfer_result(m0, from, to, amount)
    &&& (r is Err || from == to) ==> m1 == m0
    &&& (r is Ok && from != to) ==> {
        &&& holds_amount(m1, from, (balance_of(m0, from) - amount) as u128)
        &&& holds_amount(m1, to, (balance_of(m0, to) + amount) as u128)
        &&& m1.remove_keys(set![balance_key(from), balance_key(to)]) == m0.remove_keys(
            set![balance_key(from), balance_key(to)],
        )
    }
}

/// What a burn of `amount` from `from` returns on the entries `m`.
pub open spec fn burn_result(m: Map<Seq<u8>, Seq<u8>>, from: Seq<u8>, amount: u128) -> Result<
    (),
    LedgerError,
> {
    if amount > balance_of(m, from) {
        Err(LedgerError::InsufficientFunds)
    } else {
        Ok(())
    }
}

/// A burn: the result is `burn_result`; a failure leaves the entries as they
/// were; a success records the reduced balance and changes no other key.
pub open spec fn burn_done(
    m0: Map<Seq<u8>, Seq<u8>>,
    from: Seq<u8>,
    amount: u128,
    r: Result<(), LedgerError>,
    m1: Map<Seq<u8>, Seq<u8>>,
) -> bool {
    &&& r == burn_result(m0, from, amount)
    &&& r is Err ==> m1 == m0
    &&& r is Ok ==> record_written(m0, from, (balance_of(m0, from) - amount) as u128, m1)
}

/// What a balance query returns on the entries `m`: the recorded balance, or
/// `NotFound` where `addr` has no record (an explicit zero is reported as zero).
pub open spec fn query_result(m: Map<Seq<u8>, Seq<u8>>, addr: Seq<u8>) -> Result<u128, LedgerError> {
    match stored_balance(m, addr) {
        Some(v) => Ok(v),
        None => Err(LedgerError::NotFound),
    }
}

/// The balance of `addr` read with a missing record as zero.
fn balance_or_zero(balances: &Balances, addr: &[u8]) -> (r: u128)
    ensures
        r == balance_of(balances.entries(), addr@),
{
    match balances.get(addr) {
        Some(v) => v,
        None => 0,
    }
}

/// Whether two addresses are the same byte string.
fn same_address(a: &[u8], b: &[u8]) -> (r: bool)
    ensures
        r == (a@ == b@),
{
    if a.len() != b.len() {
        return false;
    }
    let mut i: usize = 0;
    while i < a.len()
        invariant
            0 <= i <= a.len(),
            a@.len() == b@.len(),
            forall|j: int| 0 <= j < i ==> a@[j] == b@[j],
        decreases a.len() - i,
    {
        if a[i] != b[i] {
            return false;
        }
        i = i + 1;
    }
    assert(a@ =~= b@);
    true
}

/// Seeds the ledger: sets each credited account's balance in order, so the last
/// credit of an account wins.
pub fn init(balances: &mut Balances, msg: InitMsg)
    ensures
        init_done(old(balances).entries(), msg_credits(msg), final(balances).entries()),
{
    let ghost m0 = balances.entries();
    match msg.balances {
        Some(bs) => {
            let ghost cs = credits(bs@);
            let mut i: usize = 0;
            while i < bs.len()
                invariant
                    0 <= i <= bs.len(),
                    cs == credits(bs@),
                    init_done(m0, cs.take(i as int), balances.entries()),
                decreases bs.len() - i,
            {
                let ghost before = balances.entries();
                balances.set(bs[i].address.as_slice(), bs[i].amount);
                proof {
                    let prev = cs.take(i as int);
                    let next = cs.take(i + 1);
                    let a_i = cs[i as int].0;
                    assert(next.drop_last() =~= prev);
                    assert(next.last() == cs[i as int]);
                    assert forall|a: Seq<u8>| #[trigger]
                        last_credit(next, a) is Some implies holds_amount(
                            balances.entries(),
                            a,
                            last_credit(next, a)->Some_0,
                        ) by {
                        let m1 = balances.entries();
                        let ki = balance_key(a_i);
                        if a != a_i {
                            let ka = balance_key(a);
                            lemma_balance_key_injective(a, a_i);
                            assert(last_credit(next, a) == last_credit(prev, a));
                            assert(holds_amount(before, a, last_credit(prev, a)->Some_0));
                            assert(before.remove(ki).contains_key(ka));
                            assert(m1.remove(ki).contains_key(ka));
                            assert(m1.remove(ki)[ka] == before.remove(ki)[ka]);
                        } else {
                            assert(last_credit(next, a) == Some(cs[i as int].1));
                        }
                    }
                    assert(balances.entries().remove_keys(credited_keys(next)) =~= m0.remove_keys(
                        credited_keys(next),
                    )) by {
                        let w = credited_keys(prev);
                        assert(credited_keys(next) == w.insert(balance_key(a_i)));
                        assert(before.remove_keys(w) == m0.remove_keys(w));
                        assert forall|k: Seq<u8>| !w.contains(k) && k != balance_key(a_i)
                            implies (#[trigger] balances.entries().contains_key(k)
                            == m0.contains_key(k)) && (m0.contains_key(k)
                            ==> balances.entries()[k] == m0[k]) by {
                            assert(before.remove_keys(w).contains_key(k) == m0.remove_keys(
                                w,
                            ).contains_key(k));
                            assert(balances.entries().remove(balance_key(a_i)).contains_key(k)
                                == before.remove(balance_key(a_i)).contains_key(k));
                            if m0.contains_key(k) {
                                assert(before.remove_keys(w)[k] == m0.remove_keys(w)[k]);
                                assert(balances.entries().remove(balance_key(a_i))[k]
                                    == before.remove(balance_key(a_i))[k]);
                            }
                        }
                    }
                }
                i = i + 1;
            }
            proof {
                assert(cs.take(bs.len() as int) =~= cs);
            }
        },
        None => {
            proof {
                assert(m0.remove_keys(Set::empty()) =~= m0);
            }
        },
    }
}

/// Moves `amount` from `sender` to `to`. Both balances are read, and both new
/// balances computed, before anything is written: a failure writes nothing, and
/// a transfer to oneself passes the same checks as any other and then leaves the
/// balance as it was.
pub fn handle_transfer(balances: &mut Balances, sender: &[u8], to: &[u8], amount: u128) -> (r:
    Result<(), LedgerError>)
    ensures
        transfer_done(old(balances).entries(), sender@, to@, amount, r, final(balances).entries()),
{
    let ghost m0 = balances.entries();
    let sender_balance = balance_or_zero(balances, sender);
    if amount > sender_balance {
        return Err(LedgerError::InsufficientFunds);
    }
    let new_sender_balance = sender_balance - amount;
    let recv_balance = balance_or_zero(balances, to);
    if recv_balance > u128::MAX - amount {
        return Err(LedgerError::Overflow);
    }
    let new_recv_balance = recv_balance + amount;
    if same_address(sender, to) {
        return Ok(());
    }
    balances.set(sender, new_sender_balance);
    let ghost m_mid = balances.entries();
    balances.set(to, new_recv_balance);
    proof {
        let kf = balance_key(sender@);
        let kt = balance_key(to@);
        let m1 = balances.entries();
        lemma_balance_key_injective(sender@, to@);
        assert(m1.remove(kt).contains_key(kf) == m_mid.remove(kt).contains_key(kf));
        assert(m1.remove(kt)[kf] == m_mid.remove(kt)[kf]);
        assert forall|k: Seq<u8>| k != kf && k != kt implies (#[trigger] m1.contains_key(k)
            == m0.contains_key(k)) && (m0.contains_key(k) ==> m1[k] == m0[k]) by {
            assert(m1.remove(kt).contains_key(k) == m_mid.remove(kt).contains_key(k));
            assert(m_mid.remove(kf).contains_key(k) == m0.remove(kf).contains_key(k));
            if m0.contains_key(k) {
                assert(m1.remove(kt)[k] == m_mid.remove(kt)[k]);
                assert(m_mid.remove(kf)[k] == m0.remove(kf)[k]);
            }
        }
        assert(m1.remove_keys(set![kf, kt]) =~= m0.remove_keys(set![kf, kt]));
    }
    Ok(())
}

/// Destroys `amount` of `sender`'s balance.
pub fn handle_burn(balances: &mut Balances, sender: &[u8], amount: u128) -> (r: Result<
    (),
    LedgerError,
>)
    ensures
        burn_done(old(balances).entries(), sender@, amount, r, final(balances).entries()),
{
    let sender_balance = balance_or_zero(balances, sender);
    if amount > sender_balance {
        return Err(LedgerError::InsufficientFunds);
    }
    balances.set(sender, sender_balance - amount);
    Ok(())
}

/// Runs a mutating request on behalf of `sender`.
pub fn handle(balances: &mut Balances, sender: &[u8], msg: HandleMsg) -> (r: Result<
    (),
    LedgerError,
>)
    ensures
        match msg {
            HandleMsg::Transfer { to, amount } => transfer_done(
                old(balances).entries(),
                sender@,
                to@,
                amount,
                r,
                final(balances).entries(),
            ),
            HandleMsg::Burn { amount } => burn_done(
                old(balances).entries(),
                sender@,
                amount,
                r,
                final(balances).entries(),
            ),
        },
{
    match msg {
        HandleMsg::Transfer { to, amount } => handle_transfer(balances, sender, to.as_slice(), amount),
        HandleMsg::Burn { amount } => handle_burn(balances, sender, amount),
    }
}

/// The recorded balance of `addr`, or `NotFound` where it has no record.
pub fn query_balance(storage: &MemoryStorage, addr: &[u8]) -> (r: Result<u128, LedgerError>)
    ensures
        r == query_result(store_entries(*storage), addr@),
{
    let balances = ReadonlyBalances::from_storage(storage);
    match balances.get(addr) {
        Some(v) => Ok(v),
        None => Err(LedgerError::NotFound),
    }
}

/// Runs a read-only request.
pub fn query(storage: &MemoryStorage, msg: QueryMsg) -> (r: Result<u128, LedgerError>)
    ensures
        match msg {
            QueryMsg::Balance { address } => r == query_result(store_entries(*storage), address@),
        },
{
    match msg {
        QueryMsg::Balance { address } => query_balance(storage, address.as_slice()),
    }
}

} // verus!
