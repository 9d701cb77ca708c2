[package]
name = "rexplorer"
version = "0.1.0"
edition = "2021"
publish = false

[dependencies]
image = "*"
zip = "*"
rand = "*"
serde = "*"
serde_derive = "*"
serde_json = "*"
home = "*"
normpath = "*"
open = "*"
threadpool = "*"
lazy_static = "*"
