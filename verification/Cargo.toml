[package]
name = "axiom_pumpkin"
version = "0.1.0"
edition = "2021"
publish = false

[dependencies]
getrandom = "=0.3.4"
ruzstd = "=0.9.1"
tracing = "=0.1.44"
pumpkin-plugin-api = "=0.2.1"
