[package]
name = "findpkg"
version = "0.1.0"
edition = "2021"
publish = false

[dependencies]
anyhow = "1"
bstr = { version = "0.2", default-features = false, features = ["std"] }
getopts = "0.2"
memmap = "0.7"
rand = { version = "0.8", default-features = false, features = ["small_rng"] }
siphasher = "0.3"
