[package]
name = "nevy"
version = "0.3.0"
edition = "2021"
publish = false

[dependencies]
bevy = { version = "0.17", default-features = false, features = ["std"] }
bincode = { version = "2", features = ["serde"] }
bytes = "1"
crossbeam-channel = "0.5"
js-sys = "0.3"
log = "0.4"
postcard = { version = "1", features = ["alloc"] }
qpack = "*"
quinn-proto = "0.11"
quinn-udp = "0.5"
serde = { version = "1", features = ["derive"] }
thiserror = "2"
wasm-bindgen = "0.2"
wasm-bindgen-futures = "0.4"
web-sys = "0.3"

[dev-dependencies]
rcgen = "0.13"
rustls = { version = "0.23", default-features = false, features = ["ring", "std"] }
