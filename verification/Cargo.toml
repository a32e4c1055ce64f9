[package]
name = "sudoku"
version = "0.1.0"
edition = "2021"
publish = false

[dependencies]
structopt = "0.3"
num_cpus = "1"
lazy_static = "1"
tera = { version = "1", default-features = false }
