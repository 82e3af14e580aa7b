[package]
name = "complex_table"
version = "0.1.0"
edition = "2021"
publish = false

[dependencies]
num = "*"
num-irrational = "*"
num-rational = "*"
num-traits = "*"
serde = "*"
