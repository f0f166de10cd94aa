[package]
name = "ralloc"
version = "0.1.0"
edition = "2021"
publish = false

[dependencies]
sc = "0.2"
