use once_cell::sync::OnceCell;
use prestate_tracer::account::Account;
use prestate_tracer::primitives::{Address, U256};
use prestate_tracer::tracer::{PrestateTracer, State};
use std::sync::Arc;

fn state_with(last: u8) -> State {
    let mut bytes = [0u8; 20];
    bytes[19] = last;
    let mut state = State::new();
    state.insert(
        Address(bytes),
        Account {
            balance: Some(U256::from_big_endian([last; 32])),
            code: None,
            nonce: None,
            storage: None,
        },
    );
    state
}

#[test]
fn new_tracer_is_empty_and_keeps_its_mode() {
    let tracer = PrestateTracer::new(true, Arc::new(OnceCell::new()));
    assert_eq!(tracer.pre.len(), 0);
    assert_eq!(tracer.post.len(), 0);
    assert!(tracer.config.diff_mode());
    assert!(tracer.result.get().is_none());
    assert!(!PrestateTracer::new(false, Arc::new(OnceCell::new())).config.diff_mode());
}

#[test]
fn new_tracer_shares_the_given_cell() {
    let cell = Arc::new(OnceCell::new());
    let tracer = PrestateTracer::new(false, cell.clone());
    assert!(Arc::ptr_eq(&cell, &tracer.result));
    assert!(tracer.result.set((state_with(1), state_with(2))).is_ok());
    let (pre, post) = cell.get().expect("the holder of the cell sees the pair");
    assert_eq!(pre.len(), 1);
    assert_eq!(post.len(), 1);
}

#[test]
fn result_is_written_once() {
    let cell = Arc::new(OnceCell::new());
    let tracer = PrestateTracer::new(true, cell.clone());
    assert!(tracer.result.set((state_with(1), State::new())).is_ok());
    let second = tracer.result.set((state_with(2), state_with(3)));
    assert!(second.is_err());
    let mut one = [0u8; 20];
    one[19] = 1;
    let mut two = [0u8; 20];
    two[19] = 2;
    let (pre, post) = cell.get().unwrap();
    assert!(pre.get(&Address(one)).is_some());
    assert!(pre.get(&Address(two)).is_none());
    assert_eq!(post.len(), 0);
}
