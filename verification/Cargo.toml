[package]
name = "memfs"
version = "0.1.0"
edition = "2021"
publish = false

[dependencies]
bytes = "=1.12.1"
uuid = "=1.27.0"
sendstream_parser = "=0.2.2"
similar = "=2.7.0"
twox-hash = "=2.1.5"
nix = { version = "=0.31.3", features = ["fs"] }
walkdir = "=2.5.0"
xattr = "=1.6.1"
tar = "=0.4.46"
cpio = "=0.4.1"
