[package]
name = "kanit"
version = "0.1.0"
edition = "2021"
publish = false

[dependencies]
async-executor = "1"
async-fs = "2"
async-io = "2"
async-lock = "3"
async-process = "2"
async-signal = "0.2"
async-trait = "0.1"
atomic-write-file = "0.1"
blocking = "1"
colored = "2"
fastrand = "2"
futures-lite = "2"
libc = "0.2"
log = "0.4"
nix = { version = "0.27", features = ["feature", "fs", "hostname", "ioctl", "mount", "process", "reboot", "signal", "term", "time", "user"] }
os-release = "0.1"
postcard = { version = "1", features = ["use-std"] }
send_wrapper = "0.6"
serde = { version = "1", features = ["derive"] }
toml = "0.8"
walkdir = "2"
xflags = "0.3"
