[package]
name = "dominos"
version = "0.1.0"
edition = "2021"
publish = false

[dependencies]
regex = "=1.13.1"
serde = { version = "=1.0.229", features = ["derive"] }
serde_json = "=1.0.154"
yew = { version = "=0.21.0", features = ["csr"] }
wasm-bindgen = "=0.2.130"
wasm-bindgen-futures = "=0.4.80"
js-sys = "=0.3.107"
gloo-net = "=0.6.0"
gloo-utils = { version = "=0.2.0", features = ["serde"] }
web-sys = { version = "=0.3.107", features = ["Window", "Navigator", "MediaDevices", "MediaStream", "Document", "Element", "HtmlElement", "HtmlMediaElement", "HtmlCanvasElement", "HtmlVideoElement", "HtmlInputElement", "CanvasRenderingContext2d", "FormData", "Blob", "console"] }
