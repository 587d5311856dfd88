[package]
name = "mouse_jump"
version = "0.1.0"
edition = "2021"
publish = false

[dependencies]
anyhow = "1"
env_logger = "0.11"
image = { version = "0.25", default-features = false, features = ["png"] }
libc = "0.2"
log = "0.4"
smithay-client-toolkit = "0.19"
tokio = { version = "1", features = ["rt-multi-thread", "macros", "process", "fs", "time"] }
wayland-client = "0.31"
zbus = { version = "5", default-features = false, features = ["tokio"] }
