[package]
name = "debtsolver"
version = "0.1.0"
edition = "2021"
publish = false

[dependencies]
itertools = "*"
rust_decimal = "*"
rust_decimal_macros = "*"
rusty-money = "*"
