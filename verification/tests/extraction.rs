use prestate_tracer::account::Account;
use prestate_tracer::keys::{get_balance_key, get_code_key, get_nonce_key, StorageKey};
use prestate_tracer::primitives::{h256_to_u256, Address, H256, U256};
use prestate_tracer::storage::StorageSnapshot;
use prestate_tracer::tracer::{
    get_storage_if_present, keys_to_read, new_addresses, process_modified_storage_keys, State,
};
use prestate_tracer::vec_map::VecMap;

fn address(last: u8) -> Address {
    let mut bytes = [0u8; 20];
    bytes[19] = last;
    Address(bytes)
}

fn word(value: u64) -> H256 {
    let mut bytes = [0u8; 32];
    bytes[24..].copy_from_slice(&value.to_be_bytes());
    H256(bytes)
}

fn number(value: u64) -> U256 {
    U256::from_big_endian(word(value).0)
}

fn observed(balance: u64, code: u64, nonce: u64) -> Account {
    Account {
        balance: Some(number(balance)),
        code: Some(number(code)),
        nonce: Some(number(nonce)),
        storage: None,
    }
}

/// A store in which `owner` wrote 0x42 to slot 0x01 and reads as balance 100, code 0, nonce 1.
fn store_of(owner: &Address) -> StorageSnapshot {
    let mut storage = StorageSnapshot::new();
    storage.set_initial_value(get_balance_key(owner), word(100));
    storage.set_initial_value(get_code_key(owner), word(0));
    storage.set_initial_value(get_nonce_key(owner), word(1));
    storage.set_value(StorageKey::new(*owner, word(0x01)), word(0x42));
    storage
}

#[test]
fn new_address_is_described_from_storage() {
    let owner = address(0xAA);
    let post = process_modified_storage_keys(State::new(), &store_of(&owner));
    assert_eq!(post.len(), 1);
    let account = post.get(&owner).expect("the new address has an account");
    let mut slots = VecMap::new();
    slots.insert(word(0x01), word(0x42));
    let expected = Account { storage: Some(slots), ..observed(100, 0, 1) };
    assert_eq!(account, &expected);
    assert_eq!(account.balance, Some(number(100)));
    assert_eq!(account.code, Some(number(0)));
    assert_eq!(account.nonce, Some(number(1)));
    let slots = account.storage.as_ref().expect("the slots are reported");
    assert_eq!(slots.len(), 1);
    assert_eq!(slots.get(&word(0x01)), Some(&word(0x42)));
}

#[test]
fn known_address_is_left_out() {
    let owner = address(0xAA);
    let mut prestate = State::new();
    prestate.insert(owner, observed(7, 0, 0));
    let post = process_modified_storage_keys(prestate, &store_of(&owner));
    assert_eq!(post.len(), 0);
    assert!(post.get(&owner).is_none());
}

#[test]
fn no_writes_give_no_accounts() {
    let mut storage = StorageSnapshot::new();
    storage.set_initial_value(get_balance_key(&address(1)), word(5));
    assert_eq!(process_modified_storage_keys(State::new(), &storage).len(), 0);
    let mut prestate = State::new();
    prestate.insert(address(1), observed(5, 0, 0));
    prestate.insert(address(2), observed(6, 0, 0));
    assert_eq!(process_modified_storage_keys(prestate, &storage).len(), 0);
}

#[test]
fn each_new_address_gets_one_account() {
    let first = address(0x11);
    let second = address(0x22);
    let known = address(0x33);
    let mut storage = StorageSnapshot::new();
    storage.set_value(StorageKey::new(first, word(1)), word(10));
    storage.set_value(StorageKey::new(second, word(1)), word(20));
    storage.set_value(StorageKey::new(known, word(1)), word(30));
    storage.set_value(StorageKey::new(first, word(2)), word(40));
    storage.set_initial_value(get_balance_key(&second), word(9));
    let mut prestate = State::new();
    prestate.insert(known, observed(1, 2, 3));

    let order = new_addresses(&prestate, storage.modified_storage_keys());
    assert_eq!(order, vec![first, second]);

    let post = process_modified_storage_keys(prestate, &storage);
    assert_eq!(post.len(), 2);
    assert!(post.get(&known).is_none());
    let one = post.get(&first).unwrap();
    assert_eq!(one.balance, Some(number(0)));
    let slots = one.storage.as_ref().unwrap();
    assert_eq!(slots.len(), 2);
    assert_eq!(slots.get(&word(1)), Some(&word(10)));
    assert_eq!(slots.get(&word(2)), Some(&word(40)));
    assert_eq!(slots.get(&word(3)), None);
    let two = post.get(&second).unwrap();
    assert_eq!(two.balance, Some(number(9)));
    assert_eq!(two.storage.as_ref().unwrap().len(), 1);
    assert_eq!(two.storage.as_ref().unwrap().get(&word(1)), Some(&word(20)));
}

#[test]
fn balance_is_read_even_where_it_was_not_written() {
    let owner = address(0x44);
    let mut storage = StorageSnapshot::new();
    storage.set_initial_value(get_balance_key(&owner), word(77));
    storage.set_value(StorageKey::new(owner, word(9)), word(1));
    let post = process_modified_storage_keys(State::new(), &storage);
    assert_eq!(post.get(&owner).unwrap().balance, Some(number(77)));
    assert_eq!(post.get(&owner).unwrap().nonce, Some(number(0)));
}

#[test]
fn ledger_account_is_an_address_like_any_other() {
    let owner = address(0x55);
    let ledger = *get_balance_key(&owner).account();
    let mut storage = StorageSnapshot::new();
    storage.set_value(get_balance_key(&owner), word(1000));
    let post = process_modified_storage_keys(State::new(), &storage);
    assert_eq!(post.len(), 1);
    let account = post.get(&ledger).unwrap();
    let slots = account.storage.as_ref().unwrap();
    assert_eq!(slots.get(get_balance_key(&owner).key()), Some(&word(1000)));
}

#[test]
fn a_write_wins_over_the_value_before() {
    let key = StorageKey::new(address(1), word(1));
    let mut storage = StorageSnapshot::new();
    assert_eq!(storage.read_value(&key), H256([0u8; 32]));
    storage.set_initial_value(key, word(3));
    assert_eq!(storage.read_value(&key), word(3));
    storage.set_value(key, word(4));
    assert_eq!(storage.read_value(&key), word(4));
    storage.set_value(key, word(5));
    assert_eq!(storage.read_value(&key), word(5));
    assert_eq!(storage.modified_storage_keys().len(), 1);
    assert_eq!(storage.modified_storage_keys().get(&key), Some(&word(5)));
}

#[test]
fn slots_are_grouped_by_owner() {
    let mut modified: VecMap<StorageKey, H256> = VecMap::new();
    modified.insert(StorageKey::new(address(1), word(1)), word(11));
    modified.insert(StorageKey::new(address(2), word(1)), word(21));
    modified.insert(StorageKey::new(address(1), word(2)), word(12));
    let slots = get_storage_if_present(&address(1), &modified);
    assert_eq!(slots.len(), 2);
    assert_eq!(slots.key_at(0), &word(1));
    assert_eq!(slots.value_at(0), &word(11));
    assert_eq!(slots.key_at(1), &word(2));
    assert_eq!(slots.value_at(1), &word(12));
    assert_eq!(get_storage_if_present(&address(3), &modified).len(), 0);
}

#[test]
fn word_is_read_most_significant_byte_first() {
    let mut bytes = [0u8; 32];
    bytes[30] = 1;
    assert_eq!(h256_to_u256(H256(bytes)), number(256));
    assert_eq!(h256_to_u256(word(0x0102)).to_big_endian(), word(0x0102).0);
}

#[test]
fn keys_to_read_are_the_three_keys_of_each_new_address() {
    let first = address(0x11);
    let second = address(0x22);
    let known = address(0x33);
    let mut modified: VecMap<StorageKey, H256> = VecMap::new();
    modified.insert(StorageKey::new(first, word(1)), word(10));
    modified.insert(StorageKey::new(known, word(1)), word(30));
    modified.insert(StorageKey::new(second, word(1)), word(20));
    modified.insert(StorageKey::new(first, word(2)), word(40));
    let mut prestate = State::new();
    prestate.insert(known, observed(1, 2, 3));
    let keys = keys_to_read(&prestate, &modified);
    assert_eq!(
        keys,
        vec![
            get_balance_key(&first),
            get_code_key(&first),
            get_nonce_key(&first),
            get_balance_key(&second),
            get_code_key(&second),
            get_nonce_key(&second),
        ]
    );
    assert!(keys_to_read(&State::new(), &VecMap::new()).is_empty());
}

#[test]
fn a_store_loaded_at_the_keys_to_read_describes_the_accounts() {
    let owner = address(0x66);
    let full = store_of(&owner);
    let mut loaded = StorageSnapshot::new();
    loaded.set_value(StorageKey::new(owner, word(0x01)), word(0x42));
    for key in keys_to_read(&State::new(), loaded.modified_storage_keys()) {
        loaded.set_initial_value(key, full.read_value(&key));
    }
    let from_full = process_modified_storage_keys(State::new(), &full);
    let from_loaded = process_modified_storage_keys(State::new(), &loaded);
    assert_eq!(from_loaded.get(&owner), from_full.get(&owner));
    assert_eq!(from_loaded.get(&owner).unwrap().balance, Some(number(100)));
    assert_eq!(from_loaded.get(&owner).unwrap().nonce, Some(number(1)));
}
