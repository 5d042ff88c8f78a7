[package]
name = "git-cow"
version = "0.1.0"
edition = "2021"
publish = false

[dependencies]
anyhow = "*"
bstr = "*"
clap = { version = "*", features = ["derive"] }
git2 = { version = "*", default-features = false }
ignore = "*"
libc = "*"
reflink-copy = "*"
sha2 = "*"
