[package]
name = "sprite_packer"
version = "0.1.0"
edition = "2021"
publish = false

[dependencies]
ansi_term = "*"
clap = "*"
colored = "*"
image = "*"
log = "*"
regex = "*"
simple_logger = "*"
walkdir = "*"
