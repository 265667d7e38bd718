[package]
name = "clipvault"
version = "0.1.0"
edition = "2021"
publish = false

[dependencies]
sha2 = "0.10"
base64 = "0.22"
image = "0.25"
arboard = "3"
