use vstd::prelude::*;
use cosmwasm_std::{MemoryStorage, ReadonlyStorage, Storage};
use cosmwasm_storage::{PrefixedStorage, ReadonlyPrefixedStorage};

verus! {

#[verifier::external_type_specification]
#[verifier::external_body]
pub struct ExMemoryStorage(MemoryStorage);

/// The key/value pairs that a `MemoryStorage` holds.
pub uninterp spec fn store_entries(s: MemoryStorage) -> Map<Seq<u8>, Seq<u8>>;

/// The namespace under which balances are kept: the bytes of "prefixed_storage".
pub const STORAGE_PREFIX: [u8; 16] = [
    112u8, 114u8, 101u8, 102u8, 105u8, 120u8, 101u8, 100u8,
    95u8, 115u8, 116u8, 111u8, 114u8, 97u8, 103u8, 101u8,
];

/// The raw key under which `key` is stored in `namespace`: the namespace's
/// length as two big-endian bytes, the namespace, then the key.
pub open spec fn namespaced_key(namespace: Seq<u8>, key: Seq<u8>) -> Seq<u8> {
    seq![(namespace.len() / 256) as u8, (namespace.len() % 256) as u8] + namespace + key
}

/// The raw key of an account's balance record.
pub open spec fn balance_key(addr: Seq<u8>) -> Seq<u8> {
    namespaced_key(STORAGE_PREFIX@, addr)
}

/// The unsigned number that a byte string spells in big-endian order.
pub open spec fn be_value(b: Seq<u8>) -> nat
    decreases b.len(),
{
    if b.len() == 0 {
        0
    } else {
        be_value(b.drop_last()) * 256 + b.last() as nat
    }
}

/// `bytes` is the 16-byte big-endian encoding of `amount`.
pub open spec fn encodes(bytes: Seq<u8>, amount: u128) -> bool {
    bytes.len() == 16 && be_value(bytes) == amount as nat
}

/// The balance recorded for `addr` in the raw entries `m`: `None` where there is
/// no record, or where the record is not 16 bytes long.
pub open spec fn stored_balance(m: Map<Seq<u8>, Seq<u8>>, addr: Seq<u8>) -> Option<u128> {
    let k = balance_key(addr);
    if m.contains_key(k) && m[k].len() == 16 {
        Some(be_value(m[k]) as u128)
    } else {
        None
    }
}

/// The balance that the ledger operations use: a missing record counts as zero.
pub open spec fn balance_of(m: Map<Seq<u8>, Seq<u8>>, addr: Seq<u8>) -> u128 {
    match stored_balance(m, addr) {
        Some(v) => v,
        None => 0,
    }
}

/// `m` holds a well-formed record of `amount` for `addr`.
pub open spec fn holds_amount(m: Map<Seq<u8>, Seq<u8>>, addr: Seq<u8>, amount: u128) -> bool {
    m.contains_key(balance_key(addr)) && encodes(m[balance_key(addr)], amount)
}

/// Writing one balance record: `m1` is `m0` with the record of `addr` holding
/// `amount`, every other key untouched.
pub open spec fn record_written(
    m0: Map<Seq<u8>, Seq<u8>>,
    addr: Seq<u8>,
    amount: u128,
    m1: Map<Seq<u8>, Seq<u8>>,
) -> bool {
    &&& holds_amount(m1, addr, amount)
    &&& m1.remove(balance_key(addr)) == m0.remove(balance_key(addr))
}

/// Distinct accounts have distinct record keys.
pub proof fn lemma_balance_key_injective(a: Seq<u8>, b: Seq<u8>)
    ensures
        balance_key(a) == balance_key(b) <==> a == b,
{
    let n = STORAGE_PREFIX@.len() as int;
    if balance_key(a) == balance_key(b) {
        assert(a =~= balance_key(a).subrange(n + 2, balance_key(a).len() as int));
        assert(b =~= balance_key(b).subrange(n + 2, balance_key(b).len() as int));
    }
}

/// A well-formed record of `amount` reads back as `amount`.
pub proof fn lemma_holds_amount_reads_back(m: Map<Seq<u8>, Seq<u8>>, addr: Seq<u8>, amount: u128)
    requires
        holds_amount(m, addr, amount),
    ensures
        stored_balance(m, addr) == Some(amount),
        balance_of(m, addr) == amount,
{
}

/// Relies on `ReadonlyPrefixedStorage::get`: it looks up the namespace's
/// length-prefixed key followed by `key` in the underlying store.
#[verifier::external_body]
fn prefixed_get(storage: &MemoryStorage, namespace: &[u8], key: &[u8]) -> (r: Option<Vec<u8>>)
    requires
        namespace@.len() <= 0xFFFF,
    ensures
        match r {
            Some(v) => store_entries(*storage).contains_key(namespaced_key(namespace@, key@))
                && v@ == store_entries(*storage)[namespaced_key(namespace@, key@)],
            None => !store_entries(*storage).contains_key(namespaced_key(namespace@, key@)),
        },
{
    ReadonlyPrefixedStorage::new(namespace, storage).get(key)
}

/// Relies on `PrefixedStorage::set`: it writes `value` under the namespace's
/// length-prefixed key followed by `key`, and touches nothing else.
#[verifier::external_body]
fn prefixed_set(storage: &mut MemoryStorage, namespace: &[u8], key: &[u8], value: &[u8])
    requires
        namespace@.len() <= 0xFFFF,
    ensures
        store_entries(*final(storage)) == store_entries(*old(storage)).insert(
            namespaced_key(namespace@, key@),
            value@,
        ),
{
    PrefixedStorage::new(namespace, storage).set(key, value)
}

/// Relies on `u128::to_be_bytes`: the 16 bytes of the number, most significant first.
#[verifier::external_body]
fn encode_amount(amount: u128) -> (r: Vec<u8>)
    ensures
        encodes(r@, amount),
{
    amount.to_be_bytes().to_vec()
}

/// Relies on `u128::from_be_bytes`: the number that 16 bytes spell, most
/// significant first.
#[verifier::external_body]
fn decode_amount(bytes: &[u8]) -> (r: u128)
    requires
        bytes@.len() == 16,
    ensures
        r as nat == be_value(bytes@),
{
    u128::from_be_bytes(<[u8; 16]>::try_from(bytes).unwrap())
}

/// Reads the record of `addr` from the balance namespace of `storage`.
fn read_record(storage: &MemoryStorage, addr: &[u8]) -> (r: Option<u128>)
    ensures
        r == stored_balance(store_entries(*storage), addr@),
{
    match prefixed_get(storage, STORAGE_PREFIX.as_slice(), addr) {
        Some(val) => {
            if val.len() == 16 {
                Some(decode_amount(val.as_slice()))
            } else {
                None
            }
        },
        None => None,
    }
}

/// Read-only access to the balances kept in a store.
pub struct ReadonlyBalances<'a> {
    storage: &'a MemoryStorage,
}

impl<'a> ReadonlyBalances<'a> {
    /// The raw entries of the underlying store.
    pub closed spec fn entries(&self) -> Map<Seq<u8>, Seq<u8>> {
        store_entries(*self.storage)
    }

    pub fn from_storage(storage: &'a MemoryStorage) -> (r: Self)
        ensures
            r.entries() == store_entries(*storage),
    {
        ReadonlyBalances { storage }
    }

    /// The recorded balance of `addr`, `None` where there is no well-formed record.
    pub fn get(&self, addr: &[u8]) -> (r: Option<u128>)
        ensures
            r == stored_balance(self.entries(), addr@),
    {
        read_record(self.storage, addr)
    }
}

/// Read-write access to the balances kept in a store, which it owns while in use.
pub struct Balances {
    storage: MemoryStorage,
}

impl Balances {
    /// The raw entries of the underlying store.
    pub closed spec fn entries(&self) -> Map<Seq<u8>, Seq<u8>> {
        store_entries(self.storage)
    }

    pub fn from_storage(storage: MemoryStorage) -> (r: Self)
        ensures
            r.entries() == store_entries(storage),
    {
        Balances { storage }
    }

    /// Hands the store back, with every write made through `self`.
    pub fn into_storage(self) -> (r: MemoryStorage)
        ensures
            store_entries(r) == self.entries(),
    {
        self.storage
    }

    /// The recorded balance of `addr`, `None` where there is no well-formed record.
    pub fn get(&self, addr: &[u8]) -> (r: Option<u128>)
        ensures
            r == stored_balance(self.entries(), addr@),
    {
        read_record(&self.storage, addr)
    }

    /// Records `amount` as the balance of `addr`, replacing any earlier record.
    pub fn set(&mut self, addr: &[u8], amount: u128)
        ensures
            record_written(old(self).entries(), addr@, amount, final(self).entries()),
    {
        let bytes = encode_amount(amount);
        prefixed_set(&mut self.storage, STORAGE_PREFIX.as_slice(), addr, bytes.as_slice());
        assert(final(self).entries().remove(balance_key(addr@)) =~= old(self).entries().remove(
            balance_key(addr@),
        ));
    }
}

} // verus!
