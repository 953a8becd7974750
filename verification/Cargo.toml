[package]
name = "cache_server"
version = "0.0.1"
edition = "2021"
publish = false

[dependencies]
clap = "2"
crossbeam = "0.3"
glob = "0.2"
mio = "0.6"
num_cpus = "1"
