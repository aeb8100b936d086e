[package]
name = "dmenv"
version = "0.1.0"
edition = "2021"
publish = false

[dependencies]
app_dirs = "=1.2.1"
colored = "=3.1.1"
which = "=8.0.6"
