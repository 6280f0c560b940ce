[package]
name = "c_emit"
version = "0.1.0"
edition = "2021"
publish = false

[dependencies]
getrandom = "=0.4.3"
uuid = { version = "=1.27.0", features = ["v7"] }
