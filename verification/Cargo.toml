[package]
name = "http3bench"
version = "0.1.0"
edition = "2021"
publish = false

[dependencies]
chrono = "0.4"
libc = "0.2"
mio = { version = "1", features = ["os-poll", "net"] }
quiche = "0.24"
rand = "0.9"
rcgen = "0.14"
serde = { version = "1", features = ["derive"] }
serde_json = "1"
