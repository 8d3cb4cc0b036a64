[package]
name = "jsondepnet"
version = "0.1.0"
edition = "2021"
publish = false

[dependencies]
anyhow = "1"
clap = { version = "4", features = ["derive", "env"] }
ignore = "0.4"
jrsonnet-evaluator = "=0.5.0-pre98"
jrsonnet-ir = "=0.5.0-pre98"
jrsonnet-ir-parser = "=0.5.0-pre98"
serde = { version = "1", features = ["derive"] }
serde_json = "1"
thiserror = "2"

[dev-dependencies]
tempfile = "3"
