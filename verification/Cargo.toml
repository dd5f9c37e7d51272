[package]
name = "review"
version = "0.1.0"
edition = "2021"
publish = false

[dependencies]
wasm-bindgen = "*"
instant = "*"
log = "*"
console_log = "*"
log-panics = "*"
console_error_panic_hook = "*"

[dependencies.web-sys]
version = "*"
features = ["Window", "Document", "Element", "Node", "Text", "CharacterData", "EventTarget", "IdleDeadline"]
