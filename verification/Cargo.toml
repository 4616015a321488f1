[package]
name = "osm-soa-bake"
version = "0.1.0"
edition = "2021"
publish = false

[dependencies]
osmpbf = "0.3"
futures = "0.3"
arrow = { version = "57", default-features = false }
