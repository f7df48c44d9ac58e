[package]
name = "cuicui"
version = "0.1.0"
edition = "2021"
publish = false

[dependencies]
thiserror = "=1.0.69"
smallvec = "=1.16.4"
string-interner = "*"
