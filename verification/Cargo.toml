[package]
name = "bignetrs"
version = "0.1.0"
edition = "2021"
publish = false

[dependencies]
rand = "0.6"
fasthash = "0.4"
structopt = "0.3"
