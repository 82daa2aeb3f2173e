[package]
name = "ptree"
version = "0.1.0"
edition = "2021"
publish = false

[dependencies]
anyhow = "1"
atty = "0.2"
chrono = "0.4"
colored = "2"
ctrlc = "3"
env_logger = "0.10"
log = "0.4"
memmap2 = "0.9"
num_cpus = "1"
parking_lot = "0.12"
rayon = "1"
serde_json = "1"
