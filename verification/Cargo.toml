[package]
name = "text_buffer"
version = "0.1.0"
edition = "2021"
publish = false

[dependencies]
str_indices = "0.4"
fancy-regex = "*"
anyhow = "1"
