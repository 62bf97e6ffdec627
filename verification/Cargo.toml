[package]
name = "vocage"
version = "0.1.0"
edition = "2021"
publish = false

[dependencies]
ansi_term = "0.12"
chrono = "0.4"
clap = "2.34"
rand = "0.8"
