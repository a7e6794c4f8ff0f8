[package]
name = "bhlang"
version = "0.1.0"
edition = "2021"

[dependencies]
flate2 = "=1.1.10"
thiserror = "=2.0.21"
