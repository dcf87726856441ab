[package]
name = "jef"
version = "0.1.0"
edition = "2021"
publish = false

[dependencies]
crossterm = "0.25"
jwalk = "*"
nix = { version = "0.26", features = ["user"] }
open = "*"
serde = { version = "1", features = ["derive"] }
toml = "*"
tui = "0.19"
