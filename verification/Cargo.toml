[package]
name = "cegar_fix"
version = "0.1.0"
edition = "2021"
publish = false

[dependencies]
clap = "3"
env_logger = "*"
log = "*"
rayon = "*"
rustsat = "*"
rustsat-cadical = "*"
