[package]
name = "snemu"
version = "0.1.0"
edition = "2021"
publish = false

[dependencies]
postcard = { version = "1", features = ["alloc"] }
serde = { version = "1", features = ["derive"] }
serde_json = "1"
clap = { version = "4", features = ["derive"] }
libc = "0.2"
minifb = "*"
wasm-bindgen = "0.2"

[dev-dependencies]
fdt = "0.1"
