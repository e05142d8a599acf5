[package]
name = "caniuse_rs"
version = "0.1.0"
edition = "2021"
publish = false

[dependencies]
console_error_panic_hook = "0.1"
gloo = "0.11"
serde = { version = "1", features = ["derive"] }
serde_json = "1"
wasm-bindgen = "0.2"
web-sys = { version = "0.3", features = ["Document", "Element", "HtmlElement", "HtmlInputElement", "InputEvent", "KeyboardEvent", "Location", "Window"] }
yew = { version = "0.21", features = ["csr"] }
yew-router = "0.18"
