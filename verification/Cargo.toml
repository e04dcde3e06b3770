[package]
name = "internex_rewriter"
version = "0.1.0"
edition = "2021"
publish = false

[dependencies]
url = "*"
kuchikiki = "*"
html5ever = "*"
markup5ever = "*"
serde_json = "*"
