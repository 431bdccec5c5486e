[package]
name = "go_engine"
version = "0.1.0"
edition = "2021"
publish = false

[dependencies]
axum = "0.8"
console_error_panic_hook = "0.1"
serde = { version = "1", features = ["derive"] }
serde-wasm-bindgen = "*"
tokio = { version = "1", features = ["macros", "net", "rt-multi-thread"] }
wasm-bindgen = { version = "0.2", features = ["serde-serialize"] }
