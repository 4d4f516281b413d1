[package]
name = "movie_barcode"
version = "0.1.0"
edition = "2021"
publish = false

[dependencies]
bytes = "=1.12.1"
clap = "=4.6.7"
console = "=0.16.6"
futures = "=0.3.34"
image = { version = "=0.25.10", default-features = false, features = ["png", "jpeg"] }
indicatif = "=0.18.6"
snafu = "=0.9.2"
tokio = { version = "=1.54.1", features = ["rt-multi-thread", "macros", "process", "io-util", "time", "signal", "sync"] }
tokio-util = { version = "=0.7.20", features = ["codec"] }
