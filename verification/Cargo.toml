[package]
name = "unic-locale-impl"
version = "0.1.0"
edition = "2021"
publish = false

[dependencies]
tinystr = "0.3"
unic-langid-impl = "0.5"
