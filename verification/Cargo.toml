[package]
name = "peeko"
version = "0.1.0"
edition = "2021"
publish = false

[dependencies]
tar = "0.4"
flate2 = "1"
zstd = "0.13"
serde = { version = "1", features = ["derive"] }
serde_json = "1"
thiserror = "1"
tokio = { version = "1", features = ["fs", "io-util", "io-std", "macros", "rt-multi-thread"] }
reqwest = { version = "0.12", default-features = false, features = ["json", "stream", "rustls-tls"] }
futures-util = "0.3"
clap = { version = "4", features = ["derive"] }
console = "0.15"
dirs = "5"
indicatif = "0.17"
inquire = "0.7"
tabled = "0.15"
