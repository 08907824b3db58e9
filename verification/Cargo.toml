[package]
name = "reforger_language_server"
version = "0.1.0"
edition = "2021"
publish = false

[dependencies]
png = "0.17"
url = "2"
