[package]
name = "iterative_server"
version = "0.1.0"
edition = "2021"

[dependencies]
mio = { version = "1", features = ["os-poll", "net"] }
