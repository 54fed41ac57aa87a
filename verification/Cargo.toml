[package]
name = "image_to_pure_css"
version = "0.1.0"
edition = "2021"
publish = false

[dependencies]
fxhash = "0.2"
itoa = "1"
image = { version = "0.25", default-features = false, features = ["png", "jpeg", "gif", "bmp", "webp"] }
wasm-bindgen = "0.2"
