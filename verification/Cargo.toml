[package]
name = "kimojio"
version = "0.1.0"
edition = "2021"
publish = false

[dependencies]
futures-util = { version = "0.3", default-features = false, features = ["io", "std"] }
libc = "=0.2.191"
rustix = { version = "=1.1.6", features = ["event", "std"] }
