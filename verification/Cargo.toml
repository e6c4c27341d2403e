[package]
name = "support_crates"
version = "0.1.0"
edition = "2021"
publish = false

[dependencies]
log = "0.4"
sbi = "0.2"
thiserror-no-std = "2"
