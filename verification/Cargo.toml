[package]
name = "htmlua_parser"
version = "0.1.0"
edition = "2021"
publish = false

[dependencies]
anyhow = "1"
dirs = "*"
kuchikiki = "*"
markup5ever = "0.11"
mlua = { version = "*", features = ["lua54", "vendored", "serialize"] }
pulldown-cmark = "*"
reqwest = { version = "0.12", default-features = false, features = ["blocking", "json"] }
serde = { version = "1", features = ["derive"] }
serde_json = "1"
syntect = { version = "5", default-features = false, features = ["default-fancy"] }
tendril = "0.4"
toml = "*"
