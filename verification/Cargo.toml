[package]
name = "xdg_desktop_entry"
version = "0.1.0"
edition = "2021"
publish = false

[dependencies]
dirs = "*"

[dev-dependencies]
nom = { version = "6", default-features = false, features = ["std"] }
