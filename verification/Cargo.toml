[package]
name = "rofi_files"
version = "0.1.0"
edition = "2021"
publish = false

[dependencies]
dirs = "*"
tree_magic = "*"
walkdir = "*"
