[package]
name = "mmm_core"
version = "0.1.0"
edition = "2021"
publish = false

[dependencies]
rand = "0.8"
clap = "3"
ansi_term = "0.12"
colorous = "1"
pbr = "1"
