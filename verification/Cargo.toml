[package]
name = "prog4"
version = "0.1.0"
edition = "2021"
publish = false

[dependencies]
aws-config = "*"
aws-sdk-dynamodb = "*"
aws-sdk-s3 = "*"
gloo = "*"
reqwasm = "*"
reqwest = { version = "0.12", default-features = false, features = ["rustls-tls"] }
rocket = "*"
serde = { version = "1", features = ["derive"] }
serde_json = "1"
tokio = { version = "1", features = ["full"] }
wasm-bindgen = "*"
wasm-bindgen-futures = "*"
web-sys = { version = "*", features = ["HtmlInputElement", "InputEvent", "EventTarget"] }
yew = { version = "*", features = ["csr"] }
