[package]
name = "xi_frontend"
version = "0.1.0"
edition = "2021"
publish = false

[dependencies]
serde = "1"
serde_json = "1"
direct2d = "*"
directwrite = "*"
druid = "0.1"
druid-win-shell = "0.1"
winapi = "0.3"
xi-core-lib = "*"
xi-rpc = "*"
