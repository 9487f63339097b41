[package]
name = "lockstep"
version = "0.1.0"
edition = "2021"
publish = false

[dependencies]
zip = { version = "*", default-features = false, features = ["deflate"] }
ws = "*"
structopt = "*"
fern = "*"
log = "*"
wasm-gc-api = "*"
