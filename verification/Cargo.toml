[package]
name = "pdf_engine_core"
version = "0.1.0"
edition = "2021"
publish = false

[dependencies]
flate2 = "=1.1.10"
md-5 = "=0.10.6"
jpeg-decoder = "=0.3.2"
ttf-parser = "=0.20.0"
tiny-skia = "=0.11.4"
thiserror = "=1.0.69"
lazy_static = "=1.5.1"
pdfium-render = "=0.9.5"
wasm-bindgen = "=0.2.130"
js-sys = "=0.3.107"
jni = "0.21"
