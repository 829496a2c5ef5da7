[package]
name = "site_routes"
version = "0.1.0"
edition = "2021"
publish = false

[dependencies]
dioxus = { version = "0.6", features = ["router"] }
lumen-blocks = "*"
