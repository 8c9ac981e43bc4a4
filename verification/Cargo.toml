[package]
name = "rrule_rust"
version = "0.1.0"
edition = "2021"
publish = false

[dependencies]
chrono = "0.4"
chrono-tz = "0.8"
wasm-bindgen = "0.2"
