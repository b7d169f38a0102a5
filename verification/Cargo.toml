[package]
name = "zksum"
version = "0.1.0"
edition = "2021"
publish = false

[dependencies]
clap = "=4.6.7"
hex = "=0.4.3"
risc0-binfmt = "=3.0.5"
risc0-zkvm = "=3.0.6"
serde_json = "*"
sha2 = "=0.10.9"
