[package]
name = "sorting_tutor"
version = "0.1.0"
edition = "2021"
publish = false

[dependencies]
rand = "=0.9.5"
leptos = { version = "=0.8.23", features = ["csr"] }
reactive_stores = "=0.4.4"
gloo = "=0.11.0"
wasm-bindgen = "=0.2.130"
wasm-bindgen-futures = "=0.4.80"
web-sys = { version = "=0.3.107", features = ["console", "CanvasRenderingContext2d", "HtmlCanvasElement", "Document", "Element", "HtmlElement", "Window"] }
console_error_panic_hook = "=0.1.7"
