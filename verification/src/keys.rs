use crate::hash::{keccak256, keccak256_digest};
use crate::primitives::{address_to_h256, left_padded, zero_bytes, Address, H256};
use crate::vec_map::ViewEq;
use vstd::prelude::*;

verus! {

/// The system account whose storage is the ledger of native-token balances.
pub const L2_ETH_TOKEN_ADDRESS: [u8; 20] = [
    0, 0, 0, 0, 0, 0, 0, 0, 0, 0, 0, 0, 0, 0, 0, 0, 0, 0, 0x80, 0x0a,
];

/// The system account whose storage maps each address to its code.
pub const ACCOUNT_CODE_STORAGE_ADDRESS: [u8; 20] = [
    0, 0, 0, 0, 0, 0, 0, 0, 0, 0, 0, 0, 0, 0, 0, 0, 0, 0, 0x80, 0x02,
];

/// The system account whose storage maps each address to its nonce.
pub const NONCE_HOLDER_ADDRESS: [u8; 20] = [
    0, 0, 0, 0, 0, 0, 0, 0, 0, 0, 0, 0, 0, 0, 0, 0, 0, 0, 0x80, 0x03,
];

/// A key of the flat store: the account that owns the slot, and the slot.
#[derive(Clone, Copy, Debug, PartialEq, Eq, Hash)]
pub struct StorageKey {
    account: Address,
    key: H256,
}

/// A storage key as a pair of byte strings.
pub struct StorageKeyView {
    pub account: Seq<u8>,
    pub key: Seq<u8>,
}

impl View for StorageKey {
    type V = StorageKeyView;

    closed spec fn view(&self) -> StorageKeyView {
        StorageKeyView { account: self.account@, key: self.key@ }
    }
}

impl StorageKey {
    pub fn new(account: Address, key: H256) -> (storage_key: StorageKey)
        ensures
            storage_key@ == (StorageKeyView { account: account@, key: key@ }),
    {
        StorageKey { account, key }
    }

    /// The account that owns the slot.
    pub fn account(&self) -> (account: &Address)
        ensures
            account@ == self@.account,
    {
        &self.account
    }

    /// The slot within the owner's storage.
    pub fn key(&self) -> (key: &H256)
        ensures
            key@ == self@.key,
    {
        &self.key
    }
}

impl ViewEq for StorageKey {
    fn same(&self, other: &StorageKey) -> (same: bool) {
        self.account.same(&other.account) && self.key.same(&other.key)
    }
}

/// The slot at which a ledger that is a mapping in its contract's first storage
/// variable keeps the entry of an address: the Keccak-256 digest of the padded
/// address followed by 32 zero bytes.
pub open spec fn address_mapping_slot(address: Seq<u8>) -> Seq<u8> {
    keccak256_digest(left_padded(address) + zero_bytes(32))
}

/// The key under which the balance of an address is stored.
pub open spec fn balance_key(address: Seq<u8>) -> StorageKeyView {
    StorageKeyView { account: L2_ETH_TOKEN_ADDRESS@, key: address_mapping_slot(address) }
}

/// The key under which the code of an address is stored.
pub open spec fn code_key(address: Seq<u8>) -> StorageKeyView {
    StorageKeyView { account: ACCOUNT_CODE_STORAGE_ADDRESS@, key: left_padded(address) }
}

/// The key under which the nonce of an address is stored.
pub open spec fn nonce_key(address: Seq<u8>) -> StorageKeyView {
    StorageKeyView { account: NONCE_HOLDER_ADDRESS@, key: address_mapping_slot(address) }
}

/// The balance, code and nonce keys of any addresses are three different keys.
pub proof fn lemma_derived_keys_differ(first: Seq<u8>, second: Seq<u8>, third: Seq<u8>)
    ensures
        balance_key(first) != code_key(second),
        code_key(second) != nonce_key(third),
        balance_key(first) != nonce_key(third),
{
    assert(L2_ETH_TOKEN_ADDRESS@[19] == 0x0a);
    assert(ACCOUNT_CODE_STORAGE_ADDRESS@[19] == 0x02);
    assert(NONCE_HOLDER_ADDRESS@[19] == 0x03);
}

fn address_mapping_key(address: &Address) -> (slot: H256)
    ensures
        slot@ == address_mapping_slot(address@),
{
    let padded = address_to_h256(address);
    let mut preimage = [0u8; 64];
    let mut i: usize = 0;
    while i < 32
        invariant
            i <= 32,
            forall|j: int| 0 <= j < i ==> preimage@[j] == padded@[j],
            forall|j: int| 32 <= j < 64 ==> preimage@[j] == 0,
        decreases 32 - i,
    {
        preimage[i] = padded.0[i];
        i = i + 1;
    }
    assert(preimage@ =~= left_padded(address@) + zero_bytes(32));
    H256(keccak256(preimage.as_slice()))
}

/// The storage key of the balance of an account: its slot in the ledger of the
/// native token.
pub fn get_balance_key(account: &Address) -> (storage_key: StorageKey)
    ensures
        storage_key@ == balance_key(account@),
{
    StorageKey::new(Address(L2_ETH_TOKEN_ADDRESS), address_mapping_key(account))
}

/// The storage key of the code of an account: the padded address, in the storage
/// of the account that keeps the codes.
pub fn get_code_key(account: &Address) -> (storage_key: StorageKey)
    ensures
        storage_key@ == code_key(account@),
{
    StorageKey::new(Address(ACCOUNT_CODE_STORAGE_ADDRESS), address_to_h256(account))
}

/// The storage key of the nonce of an account: its slot in the storage of the
/// account that keeps the nonces.
pub fn get_nonce_key(account: &Address) -> (storage_key: StorageKey)
    ensures
        storage_key@ == nonce_key(account@),
{
    StorageKey::new(Address(NONCE_HOLDER_ADDRESS), address_mapping_key(account))
}

} // verus!
