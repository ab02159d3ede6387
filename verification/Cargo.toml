[package]
name = "comparer"
version = "0.1.0"
edition = "2021"
publish = false

[dependencies]
similar = { version = "=3.2.1", features = ["inline"] }
image = { version = "=0.25.10", default-features = false, features = ["png", "jpeg", "webp", "gif", "bmp"] }
xxhash-rust = { version = "=0.8.19", features = ["xxh3"] }
serde = { version = "=1.0.229", features = ["derive"] }
serde_json = "=1.0.154"
ts-rs = "=10.1.0"
wasm-bindgen = "=0.2.130"
console_error_panic_hook = "=0.1.7"
rayon = "=1.12.0"
