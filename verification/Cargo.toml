[package]
name = "chrommydoggymommy"
version = "0.1.0"
edition = "2021"
publish = false

[dependencies]
byteorder = "1"
sha2 = "0.10"
rand = "0.8"
itertools = "0.13"
hex = "0.4"
rkyv = "0.7"
tokio = { version = "1", features = ["full"] }
pyo3 = "0.21"
indicatif = "0.17"
console = "0.15"
clap = { version = "4", features = ["derive"] }
num_cpus = "1"
time = { version = "0.3", features = ["macros", "formatting", "local-offset"] }
tracing-mutex = "0.3"
lazy_static = "1"
futures-util = "0.3"
tokio-stream = "0.1"
async-trait = "0.1"
anyhow = "1"
