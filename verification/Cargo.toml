[package]
name = "wisp_web"
version = "0.1.0"
edition = "2021"
publish = false

[dependencies]
rcgen = "0.11"
rustls = { version = "0.21", features = ["dangerous_configuration"] }
winit = "0.28"
softbuffer = "0.3"
