[package]
name = "langton"
version = "0.1.0"
edition = "2021"
publish = false

[dependencies]
console_error_panic_hook = "0.1"
gloo = "0.11"
num-traits = "0.2"
proc-macro2 = "1"
quote = "1"
syn = "2"
url = "2"
wasm-bindgen = "0.2"
wasm-bindgen-futures = "0.4"
web-sys = { version = "0.3", features = ["CanvasRenderingContext2d", "Document", "Element", "Event", "EventTarget", "History", "HtmlCanvasElement", "HtmlElement", "HtmlHeadElement", "HtmlInputElement", "Location", "Node", "Window", "console"] }
