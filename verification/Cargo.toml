[package]
name = "pathtracer"
version = "0.1.0"
edition = "2021"
publish = false

[dependencies]
rand = "0.7"
json = "0.12"
png = "0.16"
threadpool = "1"
num_cpus = "1"
