[package]
name = "ripgen_lib"
version = "0.2.0"
edition = "2021"
publish = false

[dependencies]
addr = "0.15"
fxhash = "0.2"
regex = "1"
clap = { version = "4", features = ["derive"] }
thiserror = "1"
