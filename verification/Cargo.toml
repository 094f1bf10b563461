[package]
name = "rspd"
version = "1.0.0"
edition = "2021"
publish = false

[dependencies]
byteorder = "1"
clap = "2.34"
log = "0.4"
serde = { version = "1", features = ["derive"] }
serde_derive = "1"
serde_yaml = "0.9"
simple_logger = { version = "*", default-features = false }
tokio = { version = "1", features = ["rt-multi-thread", "macros", "net", "io-util", "time"] }
