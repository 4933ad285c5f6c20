[package]
name = "yangbind"
version = "0.1.0"
edition = "2021"
publish = false

[dependencies]
Inflector = "*"
serde_json = "*"
sxd-document = "*"
sxd-xpath = "*"
