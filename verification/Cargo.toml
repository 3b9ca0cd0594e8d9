[package]
name = "torin"
version = "0.1.0"
edition = "2021"
publish = false

[dependencies]
dioxus = { version = "=0.5.6", default-features = false, features = ["macro", "hooks", "signals"] }
