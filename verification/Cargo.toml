[package]
name = "inferno"
version = "0.1.0"
edition = "2021"
publish = false

[dependencies]
quick-xml = "=0.42.0"
rand = "=0.10.3"
rgb = "=0.8.53"
num-format = "=0.4.4"
str_stack = "=0.1.1"
log = "=0.4.35"
env_logger = "=0.11.11"
regex = "=1.13.1"
crossbeam = "=0.8.5"
num_cpus = "=1.17.0"
fnv = "1.0.7"
