[package]
name = "wordscan"
version = "0.1.0"
edition = "2021"
publish = false

[dependencies]
clap = { version = "4", features = ["derive"] }
crossbeam-channel = "0.5"
libc = "0.2"
memmap2 = "0.9"
num_cpus = "1"
page_size = "0.6"
regex = "1"
