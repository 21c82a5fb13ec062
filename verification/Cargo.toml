[package]
name = "severance"
version = "0.1.0"
edition = "2021"
publish = false

[dependencies]
petgraph = "*"
roxmltree = "*"
osmpbf = "*"
anyhow = "1"
geo = "*"
geojson = "*"
rstar = "*"
serde = { version = "1", features = ["derive"] }
serde_json = "1"
bincode = "1"
clap = { version = "4", features = ["derive"] }
fs-err = "*"
log = "0.4"
simple_logger = "*"
