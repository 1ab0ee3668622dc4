[package]
name = "cycle_router"
version = "0.1.0"
edition = "2021"
publish = false

[dependencies]
osmpbfreader = "*"
reqwest = { version = "*", default-features = false, features = ["blocking"] }

[dev-dependencies]
polyline = "*"
geo = "*"
