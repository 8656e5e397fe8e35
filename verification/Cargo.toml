[package]
name = "wasmer_core"
version = "0.1.0"
edition = "2021"
publish = false

[dependencies]
anyhow = "=1.0.104"
async-trait = "=0.1.92"
clap = { version = "=4.6.7", features = ["derive"] }
cynic = "=3.7.2"
cynic-codegen = "=3.7.2"
cynic-proc-macros = "=3.7.2"
futures = "=0.3.34"
tokio = { version = "=1.53.2", features = ["rt", "rt-multi-thread", "macros", "io-util"] }
url = "=2.5.8"
wasmer-api = "=0.1.0"
