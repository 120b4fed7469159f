[package]
name = "woolabels"
version = "0.1.0"
edition = "2021"
publish = false

[dependencies]
csv = "=1.4.0"
derive_builder = "0.9"
itertools = "=0.9.0"
stdweb = "0.4"
wasm-bindgen = "0.2"
yew = "0.17"
