[package]
name = "brainwash"
version = "0.1.0"
edition = "2021"
publish = false

[dependencies]
clap = "=4.6.7"
inkwell = { version = "=0.10.0", features = ["llvm14-0"] }
llvm-sys = { version = "=140.1.3", features = ["prefer-dynamic"] }
