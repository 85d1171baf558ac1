[package]
name = "cogshell"
version = "0.1.0"
edition = "2021"
publish = false

[dependencies]
md5 = "*"
base64 = "*"
hex = "*"
fastrand = "*"
regex-syntax = "*"
bpaf = "*"
tempfile = "*"
annotate-snippets = "*"
anstream = "*"
