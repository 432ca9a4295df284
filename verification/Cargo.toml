[package]
name = "clir"
version = "0.1.0"
edition = "2021"
publish = false

[dependencies]
ansi_term = "0.12"
anyhow = "1"
clap = "3"
glob = "0.3"
log = "0.4"
rayon = "1"
simple_logger = "2"
