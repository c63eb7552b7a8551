[package]
name = "exif_gps"
version = "0.1.0"
edition = "2021"
publish = false

[dependencies]
little_exif = "=0.6.23"
chrono = "=0.4.45"
gloo = "=0.12.0"
gloo-dialogs = "=0.3.0"
leaflet = "=0.5.0"
web-sys = { version = "=0.3.106", features = ["Blob", "Document", "Element", "Event", "EventTarget", "File", "FileList", "HtmlElement", "HtmlInputElement", "MouseEvent", "Node", "Url", "Window"] }
yew = { version = "=0.23.0", features = ["csr"] }
