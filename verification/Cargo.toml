[package]
name = "rustc_utils"
version = "0.1.0"
edition = "2021"
publish = false

[dependencies]
rustc-ap-rustc_lexer = "=727.0.0"
aho-corasick = "=0.7.20"
walkdir = "=2.5.0"

[dev-dependencies]
rand = "=0.4.6"
