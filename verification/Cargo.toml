[package]
name = "pingora_slice"
version = "0.1.0"
edition = "2021"
publish = false

[dependencies]
bitvec = "=1.1.1"
crc32fast = "=1.5.4"
xxhash-rust = { version = "=0.8.19", features = ["xxh3", "xxh64"] }
zstd = "=0.13.4"
lz4 = "=1.28.1"
http = "=1.5.0"
bytes = "=1.12.1"
tokio = { version = "=1.54.1", features = ["full"] }
tracing = "=0.1.44"
serde = { version = "=1.0.229", features = ["derive"] }
bincode = "=1.3.3"
thiserror = "=1.0.69"
async-trait = "=0.1.92"
memmap2 = "=0.9.12"
nix = { version = "=0.29.0", features = ["fs", "zerocopy"] }
libc = "=0.2.191"
tokio-uring = "=0.5.0"
reqwest = { version = "=0.12.28", default-features = false, features = ["http2"] }
pingora = { version = "=0.4.0", features = ["proxy"] }
pingora-proxy = "=0.4.0"

[dev-dependencies]
serde_json = "=1.0.154"
