[package]
name = "arks"
version = "0.1.0"
edition = "2021"
publish = false

[dependencies]
mime_guess = "*"
tar = "*"
zip = { version = "*", default-features = false, features = ["deflate"] }
flate2 = "*"
bzip2 = "*"
structopt = "*"
colored = "*"
nix = { version = "*", features = ["signal"] }
tempfile = "*"
