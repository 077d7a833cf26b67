[package]
name = "anondb"
version = "0.1.0"
edition = "2021"
publish = false

[dependencies]
anyhow = "*"
blake3 = { version = "*", default-features = false, features = ["pure"] }
flume = { version = "*", default-features = false }
hex = "*"
log = "*"
proc-macro2 = "*"
quote = "*"
redb = "*"
rmp-serde = "*"
serde = { version = "*", features = ["derive"] }
serde_bytes = "*"
syn = { version = "*", features = ["full"] }

[dev-dependencies]
rand = "*"
