[package]
name = "pst_utils"
version = "0.1.0"
edition = "2021"
publish = false

[dependencies]
anyhow = "1"
chrono = "0.4"
encoding_rs = "0.8"
log = "0.4"
