[package]
name = "btree_store"
version = "0.1.0"
edition = "2021"
publish = false

[dependencies]
smallvec = "1"
staticvec = "0.11"
parking_lot = "0.12"
lock_api = "0.4"
rustc-arena-modified = "0.1.1"
