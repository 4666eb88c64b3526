[package]
name = "irmin"
version = "0.1.0"
edition = "2021"
publish = false

[dependencies]
dashmap = "6"
flate2 = "1"
futures-util = "0.3"
hex = "0.4"
libc = "0.2"
log = "0.4"
lz4 = "1"
md-5 = "0.10"
reqwest = { version = "0.12", default-features = false, features = ["json", "stream"] }
rustc-hash = "2"
serde = { version = "1", features = ["derive"] }
serde_json = "1"
sha2 = "0.10"
tokio = { version = "1", features = ["full"] }
tokio-util = "0.7"
xxhash-rust = { version = "0.8", features = ["xxh64"] }
zip = { version = "2", default-features = false, features = ["deflate"] }
zstd = "0.13"

[dev-dependencies]
fast-md5 = "*"
