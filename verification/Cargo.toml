[package]
name = "mdbook_auto_gen_summary"
version = "0.1.0"
edition = "2021"
publish = false

[dependencies]
anyhow = "1"
hex = "0.4"
md-5 = "0.10"
mdbook = { version = "0.4", default-features = false }
