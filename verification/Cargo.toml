[package]
name = "ipfs_rust"
version = "0.1.0"
edition = "2021"
publish = false

[dependencies]
cid = "*"
multihash = "*"
sha2 = "*"
fjall = "*"
infer = "*"
queues = "*"
actix-web = "*"
actix-multipart = "*"
actix-cors = "*"
tokio = { version = "*", features = ["fs", "io-util", "macros", "rt-multi-thread"] }
futures-util = "*"

[dev-dependencies]
tempfile = "*"
