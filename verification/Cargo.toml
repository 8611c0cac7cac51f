[package]
name = "prestate_tracer"
version = "0.1.0"
edition = "2021"
publish = false

[dependencies]
once_cell = "1"
zksync_basic_types = "0.1.0"
