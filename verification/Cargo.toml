[package]
name = "devsec"
version = "0.1.0"
edition = "2021"
publish = false

[dependencies]
time = { version = "*", features = ["parsing", "formatting"] }
clap = { version = "*", features = ["derive", "env"] }
tokio = { version = "*", features = ["rt-multi-thread", "macros"] }
reqwest = { version = "*", default-features = false, features = ["json", "rustls-tls"] }
serde = { version = "*", features = ["derive"] }
serde_json = "*"
directories = "*"
tabled = "*"
indicatif = "*"
csv = "*"
