[package]
name = "nix-index"
version = "0.1.0"
edition = "2021"
publish = false

[dependencies]
ansi_term = "=0.12.1"
byteorder = "=1.5.0"
clap = "=2.34.0"
grep = "=0.1.9"
isatty = "0.1"
regex = "=0.2.11"
regex-syntax = "=0.4.2"
separator = "=0.4.1"
serde_json = "=1.0.154"
stderr = "=0.8.0"
thiserror = "=1.0.69"
xdg = "=2.5.2"
zstd = "=0.14.3"
