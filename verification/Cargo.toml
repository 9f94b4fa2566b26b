[package]
name = "iperf3d"
version = "0.1.0"
edition = "2021"
publish = false

[dependencies]
tokio = { version = "1", features = ["rt-multi-thread", "net", "time", "io-util", "macros"] }
async-mutex = "1"
clap = "4"
