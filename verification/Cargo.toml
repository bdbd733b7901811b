[package]
name = "state_sync"
version = "0.1.0"
edition = "2021"
publish = false

[dependencies]
hash-db = "0.16"
log = "0.4"
parity-scale-codec = { version = "3", features = ["derive"] }
smallvec = "1"
sp-core = "36.1"
sp-runtime = "41.1"
sp-state-machine = "0.45"
sp-trie = "39.1"
trie-db = "0.30"
