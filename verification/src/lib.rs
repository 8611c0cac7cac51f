pub mod account;
pub mod hash;
pub mod keys;
pub mod order;
pub mod primitives;
pub mod storage;
pub mod text;
pub mod tracer;
pub mod vec_map;
