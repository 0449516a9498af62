[package]
name = "riff"
version = "0.1.0"
edition = "2021"
publish = false

[dependencies]
similar = "2"
url = "2"
itertools = "*"
threadpool = "1"
num_cpus = "1"
once_cell = "1"
lazy_static = "1"
log = { version = "0.4", features = ["std"] }
clap = { version = "4", features = ["derive"] }
backtrace = "0.3"
git-version = "0.3"
stdio-override = "0.1"
