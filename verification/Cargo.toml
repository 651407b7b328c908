[package]
name = "wasm_games"
version = "0.1.0"
edition = "2021"
publish = false

[dependencies]
quad-rand = "=0.2.3"
macroquad = { version = "=0.4.16", features = ["audio"] }
serde = { version = "=1.0.229", features = ["derive"] }
serde_json = "=1.0.154"
wasm-bindgen = "=0.2.130"
js-sys = "=0.3.107"
serde-wasm-bindgen = "=0.6.5"
