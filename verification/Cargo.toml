[package]
name = "sheet_filter"
version = "0.1.0"
edition = "2021"
publish = false

[dependencies]
regex = "=1.13.1"
calamine = "=0.36.1"
docx = "=1.0.0"
