[package]
name = "traffic_control"
version = "0.1.0"
edition = "2021"
publish = false

[dependencies]
base64 = "=0.22.1"
env_logger = "=0.11.11"
kurbo = "=0.11.3"
log = "=0.4.35"
osmpbf = "=0.3.8"
parking_lot = "=0.12.5"
parry2d = "=0.17.6"
petgraph = "=0.6.5"
rand = "=0.8.8"
rand_distr = "=0.4.3"
reqwest = { version = "=0.12.28", default-features = false, features = ["blocking"] }
rstar = "=0.12.2"
serde = { version = "=1.0.229", features = ["derive"] }
serde_json = "=1.0.154"
tokio = { version = "=1.54.1", features = ["rt"] }
