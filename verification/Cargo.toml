[package]
name = "mictylish"
version = "0.1.0"
edition = "2021"
publish = false

[dependencies]
glob = "*"
miette = "*"
rustyline = "*"
thiserror = "*"
