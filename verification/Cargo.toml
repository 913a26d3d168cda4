[package]
name = "branchfs"
version = "0.1.0"
edition = "2021"
publish = false

[dependencies]
anyhow = "1"
clap = { version = "4", features = ["derive"] }
env_logger = "0.11"
fuser = { version = "0.16", default-features = false, features = ["abi-7-40"] }
libc = "0.2"
log = "0.4"
nix = { version = "0.29", features = ["fs", "user", "time"] }
parking_lot = "0.12"
serde = { version = "1", features = ["derive"] }
serde_json = "1"
uuid = { version = "1", features = ["v4"] }
