[package]
name = "justpkg"
version = "0.1.0"
edition = "2021"
publish = false

[dependencies]
anyhow = "=1.0.104"
chrono = "=0.4.45"
clap = { version = "=4.6.7", features = ["derive"] }
clap_complete = "4"
clap_complete_nushell = "4"
git2 = "=0.21.0"
hex = "=0.4.3"
microxdg = "=0.2.0"
serde = { version = "=1.0.229", features = ["derive"] }
serde_json = "=1.0.154"
sha2 = "=0.10.9"
topological-sort = "=0.3.1"
