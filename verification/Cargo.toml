[package]
name = "siderophile"
version = "0.2.0"
edition = "2021"
publish = false

[dependencies]
rustc-demangle = "0.1"
anyhow = "1"
glob = "0.3"
llvm-ir = "0.8"
quote = "1"
structopt = "0.3"
syn = { version = "1", features = ["full", "visit", "extra-traits"] }
tempfile = "3"
walkdir = "2"
