[package]
name = "ubpkg"
version = "0.1.0"
edition = "2021"
publish = false

[dependencies]
vsort = "*"
allocative = "*"
anyhow = "*"
clap = { version = "*", features = ["derive"] }
color-eyre = "*"
decompress = "*"
directories = "*"
include_dir = "*"
reqwest = { version = "*", default-features = false, features = ["blocking"] }
starlark = "*"
tempdir = "*"
tempfile = "*"
thiserror = "*"
ureq = "*"
