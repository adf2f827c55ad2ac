[package]
name = "match_ledger"
version = "0.1.0"
edition = "2021"
publish = false

[dependencies]
alloy-sol-types = "=0.3.1"
ruint = "=1.11.1"
stylus-sdk = "=0.4.3"
wee_alloc = "=0.4.5"
