[package]
name = "whispery"
version = "0.1.0"
edition = "2021"
publish = false

[dependencies]
mediatime = "=0.1.9"
smol_str = "=0.3.7"
num_cpus = "=1.17.0"
crossbeam-channel = "=0.5.17"
tokenizers = { version = "=0.23.2", default-features = false, features = ["fancy-regex"] }
ort = { version = "=2.0.0-rc.12", default-features = false, features = ["std", "load-dynamic", "api-24"] }
whispercpp = "=0.2.1"
serde = { version = "=1.0.229", features = ["derive"] }
