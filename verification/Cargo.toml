[package]
name = "memolanes_core"
version = "0.1.0"
edition = "2021"
publish = false

[dependencies]
anyhow = "*"
geo-types = "*"
gpx = "*"
kml = "*"
