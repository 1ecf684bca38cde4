[package]
name = "sexp_tree"
version = "0.1.0"
edition = "2021"
publish = false

[dependencies]
smallvec = "1"
clap = { version = "4", features = ["derive"] }
color-eyre = "0.6"
