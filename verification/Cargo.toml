[package]
name = "animator"
version = "0.1.0"
edition = "2021"
publish = false

[dependencies]
rand = "*"
serde = { version = "*", features = ["derive"] }
serde_json = "*"
ordered-float = "*"
geo = "*"
marching-squares = "*"
oklab = "*"
tiny-skia = "*"
tempfile = "*"
image = { version = "*", default-features = false, features = ["png"] }
tectonic = { version = "*", default-features = false }
