[package]
name = "testgen"
version = "0.1.0"
edition = "2021"
publish = false

[dependencies]
rand = "*"
which = "*"
zip = "*"
snap = "*"
bincode = { version = "*", features = ["serde"] }
serde = { version = "*", features = ["derive"] }
num_cpus = "*"
log = "*"
env_logger = "*"
console = "*"
indicatif = "*"
indicatif-log-bridge = "*"
fs_extra = "*"
dunce = "*"
thiserror = "*"
termsize = "*"
