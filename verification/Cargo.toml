[package]
name = "blush"
version = "0.1.0"
edition = "2021"
publish = false

[dependencies]
rand = { version = "0.8", features = ["small_rng"] }
egui = "0.20"
eframe = { version = "0.20", default-features = false, features = ["default_fonts", "glow"] }
palette = "0.6"
serde_json = "1"
log = "0.4"
console_error_panic_hook = "0.1"
console_log = "0.2"
tracing-wasm = "0.2"
