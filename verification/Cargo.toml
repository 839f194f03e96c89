[package]
name = "elicznik"
version = "0.1.0"
edition = "2021"
publish = false

[dependencies]
rust-ini = "=0.21.3"
chrono = "=0.4.45"
clap = { version = "=4.6.7", features = ["derive"] }
log = "*"
openssl = "=0.10.81"
postgres = { version = "=0.19.14", features = ["with-chrono-0_4"] }
postgres-openssl = "=0.5.3"
reqwest = { version = "=0.13.5", default-features = false, features = ["cookies", "form"] }
simplelog = "=0.12.2"
tokio = { version = "=1.53.2", features = ["macros", "rt-multi-thread"] }
