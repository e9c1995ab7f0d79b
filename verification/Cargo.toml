[package]
name = "clifford"
version = "0.1.0"
edition = "2021"
publish = false

[dependencies]
num = "0.4"
chumsky = "0.9"
structopt = "0.3"
itertools = "0.12"
unicode-ident = "1"
