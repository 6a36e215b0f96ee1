[package]
name = "reactive_link"
version = "0.1.0"
edition = "2021"
publish = false

[dependencies]
leptos_reactive = "0.0"
leptos = "0.0"
cfg-if = "1"
wasm-bindgen = "0.2"
