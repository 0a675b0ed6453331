[package]
name = "sshp"
version = "0.1.0"
edition = "2021"
publish = false

[dependencies]
crossterm = "0.28"
nucleo-matcher = "0.3"
