[package]
name = "annual_report_database"
version = "0.1.0"
edition = "2021"
publish = false

[dependencies]
tokio = { version = "1", features = ["full"] }
reqwest = { version = "0.11", default-features = false, features = ["rustls-tls"] }
csv = "1"
serde = "1"
serde_derive = "1"
serde_json = "1"
walkdir = "2"
chrono = "0.4"
structopt = "0.3"
log = "0.4"
simplelog = "*"
horrorshow = "0.8"
lopdf = "*"
