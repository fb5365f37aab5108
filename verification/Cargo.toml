[package]
name = "trading_bots"
version = "0.1.0"
edition = "2021"
publish = false

[dependencies]
bytemuck = "1"
chrono = "0.4"
thiserror = "*"
serde = { version = "1", features = ["derive"] }
tokio = { version = "1", features = ["full"] }
binance = "*"
lazy_static = "1"
dotenvy = "0.15"
async-trait = "0.1"
linfa = "0.7"
linfa-bayes = "0.7"
ndarray = "0.15"
