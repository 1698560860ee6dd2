[package]
name = "vcd2json"
version = "0.1.0"
edition = "2021"
publish = false

[dependencies]
vcd = "*"
serde = { version = "1", features = ["derive"] }
serde_json = "1"
structopt = "0.3"
atty = "0.2"
