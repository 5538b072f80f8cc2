[package]
name = "xml_lib_rust"
version = "1.2.1"
edition = "2021"
publish = false

[dependencies]
serde = "1"
