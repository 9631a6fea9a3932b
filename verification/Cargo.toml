[package]
name = "station_stats"
version = "0.1.0"
edition = "2021"
publish = false

[dependencies]
anyhow = "1"
csv = "1"
futures = "0.3"
memmap = "0.7"
rand = "0.8"
rand_distr = "0.4"
rand_xorshift = "0.3"
rustc-hash = "2"
tokio = { version = "1", default-features = false, features = ["rt-multi-thread", "macros", "sync"] }
