[package]
name = "ffgl_plugins"
version = "0.1.0"
edition = "2021"
publish = false

[dependencies]
gl = "0.14"
gl_loader = "0.1"
glium = { version = "*", default-features = false }
image = { version = "0.25", default-features = false, features = ["bmp", "gif", "ico", "jpeg", "png", "pnm", "tga", "tiff", "webp"] }
isf = "*"
rumqttc = { version = "0.24", default-features = false }
tracing = "0.1"
