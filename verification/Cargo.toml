[package]
name = "cmdbench"
version = "0.1.0"
edition = "2021"
publish = false

[dependencies]
csv = "*"
serde = "*"
serde_derive = "*"
serde_json = "*"
structopt = "*"
time = "0.1"
