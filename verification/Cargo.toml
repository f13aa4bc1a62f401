[package]
name = "kaleidoscope"
version = "0.1.0"
edition = "2021"
publish = false

[dependencies]
inkwell = { version = "=0.2.0", features = ["llvm14-0-no-llvm-linking"] }
