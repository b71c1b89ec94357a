[package]
name = "osm_extract_polygon"
version = "0.1.0"
edition = "2021"
publish = false

[dependencies]
osmpbfreader = "*"
clap = "*"
geo-types = "*"
geojson = "*"
serde_json = "*"
