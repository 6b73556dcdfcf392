[package]
name = "qrust"
version = "0.1.0"
edition = "2021"
publish = false

[dependencies]
num-complex = "0.4"
ratatui = "*"
crossterm = "*"
serde = { version = "1", features = ["derive"] }
serde-wasm-bindgen = "0.6"
wasm-bindgen = "0.2"
