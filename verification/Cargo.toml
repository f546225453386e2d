[package]
name = "cafs"
version = "0.1.0"
edition = "2021"
publish = false

[dependencies]
sha2 = "=0.11.1"
rollsum = "=0.3.0"
pbr = "=1.1.1"
fuse = "=0.3.1"
libc = "=0.2.191"
time = "=0.1.45"
serde = { version = "=1.0.229", features = ["derive"] }
serde_json = "=1.0.154"
nix = { version = "*", features = ["mount", "process", "fs"] }
