[package]
name = "zopfli_rs"
version = "0.1.0"
edition = "2021"
publish = false

[dependencies]
libc = "=0.2.191"
thiserror = "=2.0.21"

[dev-dependencies]
miniz_oxide = "0.8"
