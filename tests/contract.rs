use balance_ledger::contract::{
    handle, handle_burn, handle_transfer, init, query, query_balance, HandleMsg, InitBalance,
    InitMsg, LedgerError, QueryMsg,
};
use balance_ledger::state::{Balances, ReadonlyBalances, STORAGE_PREFIX};
use cosmwasm_std::testing::MockApi;
use cosmwasm_std::{Api, HumanAddr, MemoryStorage, ReadonlyStorage, Storage};

fn canonical(human: &str) -> Vec<u8> {
    MockApi::new(20)
        .canonical_address(&HumanAddr(human.to_string()))
        .unwrap()
        .as_slice()
        .to_vec()
}

fn credit(human: &str, amount: u128) -> InitBalance {
    InitBalance { address: canonical(human), amount }
}

fn init_helper(balances: Option<Vec<InitBalance>>) -> Balances {
    let mut b = Balances::from_storage(MemoryStorage::new());
    init(&mut b, InitMsg { balances });
    b
}

fn get_or_zero(b: &Balances, human: &str) -> u128 {
    b.get(&canonical(human)).unwrap_or_default()
}

#[test]
fn test_init() {
    let b = init_helper(None);
    let storage = b.into_storage();
    assert_eq!(query_balance(&storage, &canonical("testme")), Err(LedgerError::NotFound));
}

#[test]
fn test_init_with_balances() {
    let b = init_helper(Some(vec![credit("testme", 500)]));
    let storage = b.into_storage();
    let balances = ReadonlyBalances::from_storage(&storage);
    let addr = canonical("testme");
    assert_eq!(500, balances.get(&addr).unwrap_or_default());
}

#[test]
fn test_transfer() {
    let mut b = init_helper(Some(vec![credit("sender", 500), credit("receiver", 100)]));
    let msg = HandleMsg::Transfer { to: canonical("receiver"), amount: 150 };
    let handle_res = handle(&mut b, &canonical("sender"), msg);
    assert_eq!(handle_res, Ok(()));
    assert_eq!(get_or_zero(&b, "sender"), 350);
    assert_eq!(get_or_zero(&b, "receiver"), 250);
}

#[test]
fn test_burn() {
    let mut b = init_helper(Some(vec![credit("burner", 1000)]));
    let msg = HandleMsg::Burn { amount: 350 };
    let handle_res = handle(&mut b, &canonical("burner"), msg);
    assert_eq!(handle_res, Ok(()));
    assert_eq!(get_or_zero(&b, "burner"), 650);
}

#[test]
fn test_burn_overflow() {
    let mut b = init_helper(Some(vec![credit("burner", 250)]));
    let msg = HandleMsg::Burn { amount: 500 };
    let handle_res = handle(&mut b, &canonical("burner"), msg);
    assert_eq!(handle_res, Err(LedgerError::InsufficientFunds));
    assert_eq!(get_or_zero(&b, "burner"), 250);
}

#[test]
fn transfer_conserves_the_pair_sum() {
    let mut b = init_helper(Some(vec![credit("alice", 70), credit("bob", 30)]));
    assert_eq!(handle_transfer(&mut b, &canonical("alice"), &canonical("bob"), 45), Ok(()));
    let a = get_or_zero(&b, "alice");
    let c = get_or_zero(&b, "bob");
    assert_eq!((a, c), (25, 75));
    assert_eq!(a + c, 100);
}

#[test]
fn transfer_to_absent_account_creates_its_record() {
    let mut b = init_helper(Some(vec![credit("alice", 70)]));
    assert_eq!(b.get(&canonical("carol")), None);
    assert_eq!(handle_transfer(&mut b, &canonical("alice"), &canonical("carol"), 70), Ok(()));
    assert_eq!(b.get(&canonical("alice")), Some(0));
    assert_eq!(b.get(&canonical("carol")), Some(70));
}

#[test]
fn failed_transfer_insufficient_funds_changes_nothing() {
    let mut b = init_helper(Some(vec![credit("alice", 10), credit("bob", 5)]));
    let r = handle_transfer(&mut b, &canonical("alice"), &canonical("bob"), 11);
    assert_eq!(r, Err(LedgerError::InsufficientFunds));
    assert_eq!(b.get(&canonical("alice")), Some(10));
    assert_eq!(b.get(&canonical("bob")), Some(5));
}

#[test]
fn failed_transfer_overflow_changes_nothing() {
    let mut b = init_helper(Some(vec![credit("alice", 10), credit("bob", u128::MAX - 5)]));
    let r = handle_transfer(&mut b, &canonical("alice"), &canonical("bob"), 6);
    assert_eq!(r, Err(LedgerError::Overflow));
    assert_eq!(b.get(&canonical("alice")), Some(10));
    assert_eq!(b.get(&canonical("bob")), Some(u128::MAX - 5));
    assert_eq!(handle_transfer(&mut b, &canonical("alice"), &canonical("bob"), 5), Ok(()));
    assert_eq!(b.get(&canonical("bob")), Some(u128::MAX));
}

#[test]
fn transfer_from_absent_account_is_insufficient() {
    let mut b = init_helper(None);
    let r = handle_transfer(&mut b, &canonical("nobody"), &canonical("bob"), 1);
    assert_eq!(r, Err(LedgerError::InsufficientFunds));
    assert_eq!(b.get(&canonical("bob")), None);
    assert_eq!(handle_transfer(&mut b, &canonical("nobody"), &canonical("bob"), 0), Ok(()));
    assert_eq!(b.get(&canonical("nobody")), Some(0));
    assert_eq!(b.get(&canonical("bob")), Some(0));
}

#[test]
fn burn_touches_only_the_burner() {
    let mut b = init_helper(Some(vec![credit("burner", 1000), credit("other", 7)]));
    assert_eq!(handle_burn(&mut b, &canonical("burner"), 1000), Ok(()));
    assert_eq!(b.get(&canonical("burner")), Some(0));
    assert_eq!(b.get(&canonical("other")), Some(7));
}

#[test]
fn duplicate_genesis_credit_last_write_wins() {
    let b = init_helper(Some(vec![credit("alice", 100), credit("alice", 200)]));
    assert_eq!(b.get(&canonical("alice")), Some(200));
}

#[test]
fn explicit_zero_and_absent_account_query() {
    let mut b = init_helper(Some(vec![credit("azero", 0)]));
    let a = canonical("azero");
    let z = canonical("bnone");
    assert_eq!(get_or_zero(&b, "azero"), get_or_zero(&b, "bnone"));
    assert_eq!(
        handle_burn(&mut b, &a, 1),
        handle_burn(&mut b, &z, 1)
    );
    let storage = b.into_storage();
    assert_eq!(query_balance(&storage, &a), Ok(0));
    assert_eq!(query_balance(&storage, &z), Err(LedgerError::NotFound));
    assert_eq!(query(&storage, QueryMsg::Balance { address: z }), Err(LedgerError::NotFound));
}

#[test]
fn self_transfer_keeps_balance() {
    let mut b = init_helper(Some(vec![credit("sender", 500)]));
    let s = canonical("sender");
    assert_eq!(handle_transfer(&mut b, &s, &s, 100), Ok(()));
    assert_eq!(b.get(&s), Some(500));
    assert_eq!(handle_transfer(&mut b, &s, &s, 501), Err(LedgerError::InsufficientFunds));
    assert_eq!(b.get(&s), Some(500));
}

#[test]
fn records_are_sixteen_big_endian_bytes_under_the_namespace() {
    let mut b = Balances::from_storage(MemoryStorage::new());
    let addr = b"acct".to_vec();
    b.set(&addr, 0x0102_0304_0506_0708_090a_0b0c_0d0e_0f10);
    let storage = b.into_storage();
    let mut key = vec![0u8, 16u8];
    key.extend_from_slice(&STORAGE_PREFIX);
    key.extend_from_slice(&addr);
    assert_eq!(&STORAGE_PREFIX, b"prefixed_storage");
    let raw = storage.get(&key).unwrap();
    assert_eq!(raw, (1u8..=16).collect::<Vec<u8>>());
    assert_eq!(storage.get(&addr), None);
    assert_eq!(query_balance(&storage, &addr), Ok(0x0102_0304_0506_0708_090a_0b0c_0d0e_0f10));
}

#[test]
fn malformed_record_reads_as_absent() {
    let mut storage = MemoryStorage::new();
    let mut key = vec![0u8, 16u8];
    key.extend_from_slice(&STORAGE_PREFIX);
    key.extend_from_slice(b"acct");
    storage.set(&key, &[1u8, 2, 3]);
    assert_eq!(query_balance(&storage, b"acct"), Err(LedgerError::NotFound));
    let mut b = Balances::from_storage(storage);
    assert_eq!(b.get(b"acct"), None);
    assert_eq!(handle_burn(&mut b, b"acct", 1), Err(LedgerError::InsufficientFunds));
    assert_eq!(handle_burn(&mut b, b"acct", 0), Ok(()));
    assert_eq!(b.get(b"acct"), Some(0));
}
