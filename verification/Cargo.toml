[package]
name = "union_find"
version = "0.1.0"
edition = "2021"
publish = false

[dependencies]
easy_io = "*"
