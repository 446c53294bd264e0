[package]
name = "clipmunge"
version = "0.1.0"
edition = "2021"
publish = false

[dependencies]
anyhow = "=1.0.104"
clap = { version = "=4.6.7", features = ["derive"] }
env_logger = "=0.11.11"
libc = "=0.2.191"
log = "=0.4.35"
mlua = { version = "=0.12.2", features = ["lua54", "vendored"] }
regex = { version = "=1.13.1", default-features = false, features = ["std", "perf", "unicode-case", "unicode-perl"] }
rustix = { version = "=1.1.6", features = ["event", "fs", "pipe"] }
wayland-client = "=0.31.15"
wayland-protocols = { version = "=0.32.13", features = ["client", "staging"] }
