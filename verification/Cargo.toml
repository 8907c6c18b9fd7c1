[package]
name = "css_vds"
version = "0.1.0"
edition = "2021"
publish = false

[dependencies]
cssparser = "*"
url = "*"
serde = { version = "*", features = ["derive"] }
json5 = "*"
