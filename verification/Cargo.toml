[package]
name = "gfm-table"
version = "0.2.0"
edition = "2021"
publish = false

[dev-dependencies]
pulldown-cmark = { version = "*", default-features = false }
