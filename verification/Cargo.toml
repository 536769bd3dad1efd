[package]
name = "path_match"
version = "0.1.0"
edition = "2021"
publish = false

[dependencies]
beef = "0.5"
snafu = "0.7"
