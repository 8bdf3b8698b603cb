[package]
name = "moranima"
version = "0.1.0"
edition = "2021"
publish = false

[dependencies]
base64 = "0.22"
dioxus = { version = "0.7", default-features = false, features = ["macro", "html", "hooks", "signals"] }
image = { version = "0.25", default-features = false, features = ["png", "jpeg", "webp", "bmp"] }
rand = "0.8"
rfd = { version = "0.15", default-features = false, features = ["xdg-portal", "tokio"] }
tokio = { version = "1", features = ["rt", "time"] }
