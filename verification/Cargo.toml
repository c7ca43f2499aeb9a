[package]
name = "backend"
version = "0.1.0"
edition = "2021"
publish = false

[dependencies]
rand = "0.9"
ctrlc = "3"
syn = { version = "2", features = ["full"] }
quote = "1"
proc-macro2 = "1"
prettyplease = "0.2"
