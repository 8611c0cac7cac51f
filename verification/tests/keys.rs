use prestate_tracer::keys::{
    get_balance_key, get_code_key, get_nonce_key, StorageKey, ACCOUNT_CODE_STORAGE_ADDRESS,
    L2_ETH_TOKEN_ADDRESS, NONCE_HOLDER_ADDRESS,
};
use prestate_tracer::primitives::{address_to_h256, Address, H256};

const DIGEST_OF_64_ZERO_BYTES: [u8; 32] = [
    0xad, 0x32, 0x28, 0xb6, 0x76, 0xf7, 0xd3, 0xcd, 0x42, 0x84, 0xa5, 0x44, 0x3f, 0x17, 0xf1, 0x96,
    0x2b, 0x36, 0xe4, 0x91, 0xb3, 0x0a, 0x40, 0xb2, 0x40, 0x58, 0x49, 0xe5, 0x97, 0xba, 0x5f, 0xb5,
];

#[test]
fn address_is_padded_on_the_left() {
    let mut bytes = [0u8; 20];
    for (i, byte) in bytes.iter_mut().enumerate() {
        *byte = i as u8 + 1;
    }
    let padded = address_to_h256(&Address(bytes));
    assert_eq!(&padded.0[..12], &[0u8; 12]);
    assert_eq!(&padded.0[12..], &bytes);
}

#[test]
fn balance_key_is_the_digest_in_the_ledger() {
    let key = get_balance_key(&Address([0u8; 20]));
    assert_eq!(key.account(), &Address(L2_ETH_TOKEN_ADDRESS));
    assert_eq!(key.key(), &H256(DIGEST_OF_64_ZERO_BYTES));
    assert_eq!(L2_ETH_TOKEN_ADDRESS[18..], [0x80, 0x0a]);
}

#[test]
fn balance_key_depends_on_the_address() {
    let mut bytes = [0u8; 20];
    bytes[19] = 1;
    let one = get_balance_key(&Address(bytes));
    assert_ne!(one.key(), &H256(DIGEST_OF_64_ZERO_BYTES));
    assert_ne!(one.key(), &address_to_h256(&Address(bytes)));
    assert_eq!(one, get_balance_key(&Address(bytes)));
}

#[test]
fn code_and_nonce_keys_sit_in_their_system_accounts() {
    let mut bytes = [0u8; 20];
    bytes[0] = 0xfe;
    bytes[19] = 0x07;
    let owner = Address(bytes);
    let code = get_code_key(&owner);
    assert_eq!(code, StorageKey::new(Address(ACCOUNT_CODE_STORAGE_ADDRESS), address_to_h256(&owner)));
    let nonce = get_nonce_key(&owner);
    assert_eq!(nonce.account(), &Address(NONCE_HOLDER_ADDRESS));
    assert_eq!(nonce.key(), get_balance_key(&owner).key());
    assert_ne!(code, nonce);
    assert_ne!(get_balance_key(&owner), nonce);
}
