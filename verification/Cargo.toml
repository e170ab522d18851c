[package]
name = "fdbdir"
version = "0.1.0"
edition = "2021"
publish = false

[dependencies]
anyhow = "=1.0.104"
clap = { version = "=4.6.7", features = ["derive"] }
dirs = "=7.0.0"
foundationdb = { version = "=0.11.0", features = ["fdb-7_1"] }
foundationdb-tuple = { version = "=0.11.0", default-features = false }
futures-util = "=0.3.34"
hex = "=0.4.3"
owo-colors = "=4.4.0"
rustyline = "=18.0.1"
shell-words = "=1.1.1"
tokio = { version = "=1.53.2", features = ["rt-multi-thread", "macros"] }
