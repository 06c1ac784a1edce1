[package]
name = "bed2gtf"
version = "1.9.1"
edition = "2021"
publish = false

[dependencies]
natord = "1"
chrono = "0.4"
rayon = "1"
flate2 = "1"
clap = { version = "4", features = ["derive"] }
num_cpus = "1"
thiserror = "1"
log = "0.4"
libc = "0.2"
colored = "*"
indoc = "*"
simple_logger = "*"
