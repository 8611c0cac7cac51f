use prestate_tracer::account::Account;
use prestate_tracer::primitives::{H256, U256};
use prestate_tracer::vec_map::VecMap;

fn word(value: u64) -> H256 {
    let mut bytes = [0u8; 32];
    bytes[24..].copy_from_slice(&value.to_be_bytes());
    H256(bytes)
}

fn number(value: u64) -> U256 {
    U256::from_big_endian(word(value).0)
}

fn slots(pairs: &[(u64, u64)]) -> VecMap<H256, H256> {
    let mut map = VecMap::new();
    for (slot, value) in pairs {
        map.insert(word(*slot), word(*value));
    }
    map
}

fn account(balance: u64, pairs: &[(u64, u64)]) -> Account {
    Account {
        balance: Some(number(balance)),
        code: Some(number(0)),
        nonce: None,
        storage: Some(slots(pairs)),
    }
}

#[test]
fn maps_are_equal_whatever_the_order() {
    assert_eq!(slots(&[(1, 10), (2, 20)]), slots(&[(2, 20), (1, 10)]));
    assert_ne!(slots(&[(1, 10), (2, 20)]), slots(&[(1, 10)]));
    assert_ne!(slots(&[(1, 10)]), slots(&[(1, 10), (2, 20)]));
    assert_ne!(slots(&[(1, 10), (2, 20)]), slots(&[(1, 10), (2, 21)]));
    assert_ne!(slots(&[(1, 10), (2, 20)]), slots(&[(1, 10), (3, 20)]));
    assert_eq!(slots(&[]), slots(&[]));
}

#[test]
fn insert_replaces_in_place() {
    let mut map = slots(&[(1, 10), (2, 20), (3, 30)]);
    map.insert(word(2), word(21));
    assert_eq!(map.len(), 3);
    assert_eq!(map.key_at(1), &word(2));
    assert_eq!(map.value_at(1), &word(21));
    assert!(map.contains_key(&word(3)));
    assert!(!map.contains_key(&word(4)));
    assert_eq!(map.clone(), map);
}

#[test]
fn accounts_are_equal_when_their_fields_are() {
    assert_eq!(account(5, &[(1, 10), (2, 20)]), account(5, &[(2, 20), (1, 10)]));
    assert_ne!(account(5, &[(1, 10)]), account(6, &[(1, 10)]));
    assert_ne!(account(5, &[(1, 10)]), account(5, &[(1, 11)]));
    let mut absent = account(5, &[]);
    absent.storage = None;
    assert_ne!(absent, account(5, &[]));
    let mut with_nonce = account(5, &[]);
    with_nonce.nonce = Some(number(0));
    assert_ne!(with_nonce, account(5, &[]));
    assert_eq!(Account::default(), Account::default());
}
