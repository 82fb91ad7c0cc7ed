[package]
name = "text_extractor"
version = "0.1.0"
edition = "2021"
publish = false

[dependencies]
image = { version = "0.25", default-features = false, features = ["png"] }
log = "0.4"
tokio = { version = "1", default-features = false, features = ["rt"] }
tesseract = "0.15"
