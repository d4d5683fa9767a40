[package]
name = "tide_fluent_routes"
version = "0.1.0"
edition = "2021"
publish = false

[dependencies]
tide = "*"
