[package]
name = "rcore_os"
version = "0.1.0"
edition = "2021"
publish = false

[dependencies]
xmas-elf = "0.7.0"
clap = "2.33"

[dev-dependencies]
rand = "0.8"
