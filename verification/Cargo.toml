[package]
name = "rabo"
version = "0.1.0"
edition = "2021"
publish = false

[dependencies]
rust_decimal = "*"
rusty-money = "*"
lexical-sort = "*"
structopt = "*"
env_logger = "*"
