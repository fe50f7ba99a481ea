[package]
name = "p2p_try0"
version = "0.1.0"
edition = "2021"
publish = false

[dependencies]
bendy = "0.3"
sha3 = "0.9"
tokio = { version = "1", features = ["full"] }
structopt = "0.3"
log = "0.4"
env_logger = "0.8"
uuid = "0.8"
