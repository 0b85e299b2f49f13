[package]
name = "sequel"
version = "0.5.0"
edition = "2021"
publish = false

[dependencies]
chrono = "*"
url = "*"
comfy-table = "*"
rust_xlsxwriter = "*"
