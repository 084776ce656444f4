[package]
name = "trie-gen"
version = "0.1.0"
edition = "2021"
publish = false

[dependencies]
alloy-primitives = "=1.7.3"
alloy-rlp = "=0.3.17"
alloy-trie = "=0.9.9"
nybbles = "=0.4.9"
foldhash = "=0.2.0"
rayon = "=1.12.0"
serde_json = "=1.0.154"
reth-primitives-traits = "=0.8.2"
