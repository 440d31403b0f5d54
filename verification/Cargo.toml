[package]
name = "fpc"
version = "0.1.0"
edition = "2021"
publish = false

[dependencies]
argh = "*"
csscolorparser = "*"
image = { version = "*", default-features = false, features = ["png"] }
itertools = "*"
thiserror = "*"
