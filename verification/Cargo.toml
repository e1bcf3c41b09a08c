[package]
name = "hnsw"
version = "0.1.0"
edition = "2021"
publish = false

[dependencies]
ahash = "0.8"
hashbrown = "0.14"
leveldb = "0.8"
libm = "0.2"
lru = "0.12"
num-traits = "0.2"
rand_core = "0.6"
rand_pcg = "0.3"
rmp-serde = "1"
serde = { version = "1", features = ["derive"] }
smallvec = "1"
space = "0.17"
