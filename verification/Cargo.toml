[package]
name = "noya"
version = "0.3.0"
edition = "2021"
publish = false

[dependencies]
anyhow = "1"
async-trait = "0.1"
clap = { version = "4", features = ["derive", "env"] }
crossterm = { version = "0.28", features = ["event-stream"] }
dirs = "5"
fs2 = "0.4"
futures-util = "0.3"
pulldown-cmark = { version = "=0.13.6", default-features = false, features = ["serde"] }
ratatui = "0.29"
reqwest = { version = "0.12", default-features = false, features = ["json", "stream"] }
rpassword = "7"
serde = { version = "1", features = ["derive"] }
serde_json = "=1.0.154"
textwrap = "=0.16.4"
time = { version = "=0.3.55", features = ["formatting", "parsing", "serde", "serde-well-known"] }
tokio = { version = "1", features = ["full"] }
tokio-util = "0.7"
tracing = "0.1"
unicode-width = "=0.2.0"
uuid = { version = "=1.29.0", features = ["v4", "serde"] }
