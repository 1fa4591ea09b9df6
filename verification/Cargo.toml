[package]
name = "git_patcher"
version = "0.1.0"
edition = "2021"
publish = false

[dependencies]
anyhow = "1"
clap = { version = "4", features = ["derive"] }
fd-lock = "4"
git2 = "*"
ouroboros = "*"
serde = { version = "1", features = ["derive"] }
serde_json = "1"
toml = "*"

[dev-dependencies]
regex = "1"
