[package]
name = "tika"
version = "0.1.0"
edition = "2021"
publish = false

[dependencies]
tantivy = "=0.26.2"
clap = "=4.6.7"
toml = "=1.1.7"
glob = "=0.3.4"
shellexpand = "=3.1.2"
serde = { version = "=1.0.229", features = ["derive"] }
serde_json = "=1.0.151"
termion = "=1.5.6"
tui = { version = "=0.19.0", default-features = false, features = ["termion"] }
anyhow = "=1.0.104"
color-backtrace = "=0.7.4"
unicode-width = "=0.1.14"
