[package]
name = "wbpf"
version = "0.1.0"
edition = "2021"
publish = false

[dependencies]
petgraph = "*"
anyhow = "*"
log = "*"
pretty_env_logger = "*"
structopt = "*"
serde = { version = "*", features = ["derive"] }
serde_yaml = "*"
prost = "*"
tokio = { version = "*", features = ["full"] }
nix = { version = "*", features = ["ioctl", "fs"] }
memmap2 = "*"
