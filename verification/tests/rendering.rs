use prestate_tracer::account::Account;
use prestate_tracer::primitives::{H256, U256};
use prestate_tracer::vec_map::VecMap;

fn word(value: u64) -> H256 {
    let mut bytes = [0u8; 32];
    bytes[24..].copy_from_slice(&value.to_be_bytes());
    H256(bytes)
}

fn number(value: u64) -> U256 {
    U256::from_big_endian(word(value).0)
}

/// A word in full: `0x` and 64 digits that end in `tail`.
fn full(tail: &str) -> String {
    format!("0x{}{}", "0".repeat(64 - tail.len()), tail)
}

#[test]
fn empty_account_renders_as_empty_record() {
    assert_eq!(Account::default().render(), "{\n}\n");
}

#[test]
fn default_account_has_no_field() {
    let account = Account::default();
    assert!(account.balance.is_none());
    assert!(account.code.is_none());
    assert!(account.nonce.is_none());
    assert!(account.storage.is_none());
}

#[test]
fn fields_render_in_fixed_order() {
    let mut slots = VecMap::new();
    slots.insert(word(0x01), word(0x42));
    let mut high = [0u8; 32];
    high[0] = 0xab;
    high[1] = 0xcd;
    high[31] = 0x0f;
    slots.insert(H256(high), word(0x1_0000));
    let account = Account {
        balance: Some(number(100)),
        code: Some(number(0)),
        nonce: Some(number(1)),
        storage: Some(slots),
    };
    let expected = format!(
        "{{\n  balance: \"0x64\",\n  code: \"0x0\",\n  nonce: 0x1,\n  storage: {{\n    \
         {}: \"{}\",\n    0xabcd{}0f: \"{}\",\n  }}\n}}\n",
        full("1"),
        full("42"),
        "0".repeat(58),
        full("10000"),
    );
    assert_eq!(account.render(), expected);
}

#[test]
fn code_and_nonce_render_in_hexadecimal() {
    let account =
        Account { balance: None, code: Some(number(255)), nonce: Some(number(255)), storage: None };
    assert_eq!(account.render(), "{\n  code: \"0xff\",\n  nonce: 0xff,\n}\n");
}

#[test]
fn absent_fields_are_left_out() {
    let account = Account {
        balance: None,
        code: None,
        nonce: Some(number(0x1234_5678_9abc)),
        storage: Some(VecMap::new()),
    };
    assert_eq!(account.render(), "{\n  nonce: 0x123456789abc,\n  storage: {\n  }\n}\n");
    let only_balance =
        Account { balance: Some(number(0)), code: None, nonce: None, storage: None };
    assert_eq!(only_balance.render(), "{\n  balance: \"0x0\",\n}\n");
}

#[test]
fn large_numbers_render_in_full() {
    let account = Account {
        balance: Some(U256::from_big_endian([0xff; 32])),
        code: Some(U256::from_big_endian([0xff; 32])),
        nonce: None,
        storage: None,
    };
    let hex = "f".repeat(64);
    assert_eq!(
        account.render(),
        format!("{{\n  balance: \"0x{}\",\n  code: \"0x{}\",\n}}\n", hex, hex)
    );
}

#[test]
fn each_slot_has_one_line_with_every_digit() {
    let mut slot = [0u8; 32];
    let mut value = [0u8; 32];
    for i in 0..32 {
        slot[i] = i as u8;
        value[i] = 0xf0 + (i as u8 % 16);
    }
    let mut slots = VecMap::new();
    slots.insert(H256(slot), H256(value));
    let account = Account { balance: None, code: None, nonce: None, storage: Some(slots) };
    let slot_text = "0x000102030405060708090a0b0c0d0e0f101112131415161718191a1b1c1d1e1f";
    let value_text = "0xf0f1f2f3f4f5f6f7f8f9fafbfcfdfefff0f1f2f3f4f5f6f7f8f9fafbfcfdfeff";
    assert_eq!(
        account.render(),
        format!("{{\n  storage: {{\n    {}: \"{}\",\n  }}\n}}\n", slot_text, value_text)
    );
}

#[test]
fn slots_render_in_ascending_order() {
    let mut slots = VecMap::new();
    slots.insert(word(0x300), word(3));
    slots.insert(word(0x2), word(2));
    slots.insert(word(0x10000), word(4));
    slots.insert(word(0x1), word(1));
    let account = Account { balance: None, code: None, nonce: None, storage: Some(slots) };
    let expected = format!(
        "{{\n  storage: {{\n    {}: \"{}\",\n    {}: \"{}\",\n    {}: \"{}\",\n    {}: \"{}\",\n  \
         }}\n}}\n",
        full("1"),
        full("1"),
        full("2"),
        full("2"),
        full("300"),
        full("3"),
        full("10000"),
        full("4"),
    );
    assert_eq!(account.render(), expected);
}

#[test]
fn equal_accounts_render_to_the_same_text() {
    let mut forward = VecMap::new();
    forward.insert(word(1), word(2));
    forward.insert(word(3), word(4));
    let mut backward = VecMap::new();
    backward.insert(word(3), word(4));
    backward.insert(word(1), word(2));
    let first =
        Account { balance: Some(number(9)), code: None, nonce: None, storage: Some(forward) };
    let second =
        Account { balance: Some(number(9)), code: None, nonce: None, storage: Some(backward) };
    assert_eq!(first, second);
    assert_eq!(first.render(), second.render());
}

#[test]
fn rendering_twice_gives_the_same_text() {
    let mut slots = VecMap::new();
    slots.insert(word(3), word(4));
    slots.insert(word(1), word(2));
    let account = Account {
        balance: Some(number(255)),
        code: Some(number(16)),
        nonce: Some(number(10)),
        storage: Some(slots),
    };
    assert_eq!(account.render(), account.render());
    assert_eq!(account.clone().render(), account.render());
}
