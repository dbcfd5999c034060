[package]
name = "flip_solver"
version = "0.1.0"
edition = "2021"
publish = false

[dependencies]
crossbeam-channel = "0.5"
dashmap = "*"
env_logger = "*"
float-ord = "*"
fltk = "1"
log = "0.4"
num_cpus = "1"
rayon = "1"
