[package]
name = "file_len_inventory"
version = "0.1.0"
edition = "2021"
publish = false

[dependencies]
clap = "*"
rayon = "*"
rust_xlsxwriter = "*"
tracing = "*"
tracing-subscriber = "*"
walkdir = "*"
