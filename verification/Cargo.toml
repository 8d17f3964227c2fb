[package]
name = "gachix"
version = "0.1.0"
edition = "2021"
publish = false

[dependencies]
git2 = "*"
sha2 = "*"
nix-base32 = "*"
anyhow = "*"
tokio = { version = "*", features = ["full"] }
nix-daemon = "*"
async-ssh2-lite = { version = "*", features = ["tokio"] }
dirs = "*"
whoami = "*"
nix-nar = "*"
tracing = "*"

[dev-dependencies]
tempfile = "*"
