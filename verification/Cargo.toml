[package]
name = "ucc"
version = "0.1.0"
edition = "2021"
publish = false

[dependencies]
fxhash = "0.2"
lasso = "*"
linefeed = "0.6"
wasm-bindgen = "0.2"
js-sys = "0.3"
