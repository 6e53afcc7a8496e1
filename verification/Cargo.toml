[package]
name = "glossa"
version = "0.1.0"
edition = "2021"
publish = false

[dependencies]
gardiz = "*"
wasm-bindgen = "*"
webio = "*"

[dependencies.web-sys]
version = "*"
features = ["CssStyleDeclaration", "Document", "Element", "Event", "EventTarget", "HtmlCanvasElement", "HtmlElement", "Node", "UiEvent", "Window"]
