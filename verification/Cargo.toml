[package]
name = "air_core"
version = "0.1.0"
edition = "2021"
publish = false

[dependencies]
air-interpreter-interface = "=0.19.0"
air-interpreter-sede = "=0.1.0"
aquavm-air-parser = "=0.12.0"
fluence-keypair = "=0.6.0"
sha2 = "0.10"
