[package]
name = "topojson_client"
version = "0.1.0"
edition = "2021"
publish = false

[dependencies]
clap = "4"
geo = "*"
geo-types = "*"
serde = "*"
serde_json = "1"
topojson = "*"
