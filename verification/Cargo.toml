[package]
name = "regex-prefilter"
version = "0.1.0"
edition = "2021"
publish = false

[dependencies]
regex-automata = "0.4"
regex-syntax = "0.8"
