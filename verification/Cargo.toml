[package]
name = "mdproof"
version = "0.1.0"
edition = "2021"
publish = false

[dependencies]
pulldown-cmark = "*"
rusttype = "*"
image = "*"
printpdf = "*"
