[package]
name = "personal_site"
version = "0.1.0"
edition = "2021"
publish = false

[dependencies]
bytemuck = { version = "*", features = ["derive"] }
console_error_panic_hook = "*"
js-sys = "*"
wasm-bindgen = "*"
wasm-bindgen-futures = "*"
web-sys = { version = "*", features = ["Window", "Document", "Element", "Node", "EventTarget", "HtmlCanvasElement", "CanvasRenderingContext2d", "ImageData", "Event", "MouseEvent", "TouchEvent", "TouchList", "Touch", "Location", "Performance"] }
wgpu = "*"
