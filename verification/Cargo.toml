[package]
name = "yeesh"
version = "0.1.0"
edition = "2021"
publish = false

[dependencies]
filesystem = "*"
itertools = "*"
lazy_static = "*"
log = "*"
log4rs = "*"
serde_yaml = "*"
termion = "*"
