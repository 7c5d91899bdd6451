[package]
name = "smithy"
version = "0.1.0"
edition = "2021"
publish = false

[dependencies]
js-sys = "=0.3.106"
wasm-bindgen = "=0.2.129"
web-sys = { version = "=0.3.106", features = [
    "console",
    "Window",
    "Document",
    "DocumentFragment",
    "Element",
    "HtmlElement",
    "HtmlTemplateElement",
    "Node",
    "NodeList",
    "Text",
    "Event",
    "EventTarget",
    "MouseEvent",
    "KeyboardEvent",
    "InputEvent",
] }
