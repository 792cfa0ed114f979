[package]
name = "scoped_fs"
version = "0.1.0"
edition = "2021"
publish = false

[dependencies]
mime_guess = "*"

[dev-dependencies]
normalize-path = "*"
