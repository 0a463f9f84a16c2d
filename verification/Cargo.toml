[package]
name = "ui_compiler"
version = "0.1.0"
edition = "2021"
publish = false

[dependencies]
convert_case = "0.6"
colored = "2"
notify = "4"
base64 = "0.13"
