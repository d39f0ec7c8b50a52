[package]
name = "cs_projects"
version = "0.1.0"
edition = "2021"
publish = false

[dependencies]
kalosm = { version = "*", default-features = false, features = ["language"] }
