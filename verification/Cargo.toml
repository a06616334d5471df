[package]
name = "opencli"
version = "0.1.0"
edition = "2021"
publish = false

[dependencies]
argon2 = "*"
clap = { version = "*", features = ["derive"] }
dirs = "*"
env_logger = "*"
flate2 = "*"
indicatif = "*"
log = "*"
octocrab = "*"
rand_core = { version = "*", features = ["getrandom"] }
reqwest = { version = "*", default-features = false, features = ["rustls-tls", "json"] }
serde = { version = "*", features = ["derive"] }
serde_json = "*"
sha2 = "*"
smol_str = "*"
tar = "*"
thiserror = "*"
tokio = { version = "*", features = ["rt", "macros", "fs", "io-util", "time"] }
toml = "*"
zip = { version = "*", default-features = false, features = ["deflate"] }
