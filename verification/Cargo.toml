[package]
name = "tsp"
version = "0.1.0"
edition = "2021"
publish = false

[dependencies]
pdqselect = "*"
sha2 = "*"
md5 = "*"
rand = "=0.8.5"
queues = "*"
regex = "*"
serde = { version = "*", features = ["derive"] }
serde_json = "*"
geoutils = "*"
dotenvy = "*"
jsonwebtoken = "*"
