[package]
name = "proposer_payment"
version = "0.1.0"
edition = "2021"
publish = false

[dependencies]
clap = { version = "4", default-features = false, features = ["std", "derive", "env", "help", "usage", "error-context"] }
csv = "1"
ethers = { version = "2", default-features = false }
eyre = "0.6"
futures = { version = "0.3", default-features = false, features = ["std"] }
indicatif = { version = "0.17", default-features = false }
serde = { version = "1", features = ["derive"] }
tokio = { version = "1", features = ["macros", "rt-multi-thread"] }
