[package]
name = "bacon_rajan_cc"
version = "0.4.0"
edition = "2021"
publish = false

[dependencies]
quote = "0.3"
syn = "0.11"
synstructure = "0.5"
