[package]
name = "search_gwas"
version = "0.1.0"
edition = "2021"
publish = false

[dependencies]
clap = { version = "*", features = ["derive"] }
reqwest = { version = "*", default-features = false, features = ["blocking"] }
chrono = "*"
dirs = "*"
env_logger = "*"
log = "*"
flate2 = "*"
csv = "*"
rand = "*"
serde = { version = "*", features = ["derive"] }
prettytable-rs = "*"
