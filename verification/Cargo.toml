[package]
name = "patchelfdd"
version = "0.1.0"
edition = "2021"
publish = false

[dependencies]
elf = "0.7"
colored = "2"
snafu = "0.7"
structopt = "0.3"
