[package]
name = "dnsblk"
version = "0.1.0"
edition = "2021"
publish = false

[dependencies]
anyhow = "=1.0.104"
aya = "0.13.1"
aya-ebpf = "0.1.1"
aya-log-ebpf = "0.1.0"
clap = { version = "=4.6.7", features = ["derive"] }
env_logger = "=0.11.11"
libc = "=0.2.191"
log = "=0.4.35"
network-types = "=0.0.7"
signal-hook = "0.3.18"
tokio = { version = "=1.54.1", features = ["rt", "net", "time"] }
