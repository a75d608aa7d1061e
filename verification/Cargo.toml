[package]
name = "pfp"
version = "0.1.0"
edition = "2021"
publish = false

[dependencies]
anyhow = "1"
clap = { version = "4", features = ["derive", "env"] }
crossterm = "0.28"
flate2 = "1"
libc = "0.2"
memmap2 = "0.9"
nix = { version = "0.29", features = ["process", "ptrace", "signal", "uio"] }
object = "0.36"
prost = "0.13"
ratatui = "0.29"
tracing = "0.1"
tracing-subscriber = { version = "0.3", features = ["env-filter"] }
ureq = "2"
