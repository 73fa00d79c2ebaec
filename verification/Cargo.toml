[package]
name = "code20"
version = "0.1.0"
edition = "2021"
publish = false

[dependencies]
uint = "*"
bnum = "*"
rayon = "*"
log = "*"
env_logger = "*"
rustc-hash = "*"
cgrustplot = "*"
