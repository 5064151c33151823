[package]
name = "rs_docx"
version = "0.1.0"
edition = "2021"
publish = false

[dependencies]
hard-xml = "=1.43.0"
