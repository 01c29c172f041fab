[package]
name = "lines_db"
version = "0.1.0"
edition = "2021"
publish = false

[dependencies]
zstd = "=0.14.0"
flate2 = "=1.1.10"
tokio = { version = "=1.53.2", features = ["rt-multi-thread", "sync"] }
futures = "=0.3.34"
clap = "=4.6.7"
indicatif = "=0.18.6"
thiserror = "=2.0.21"
