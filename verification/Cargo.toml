[package]
name = "rpl"
version = "0.1.0"
edition = "2021"
publish = false

[dependencies]
regex = "1"
notify = "4"
