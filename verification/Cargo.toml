[package]
name = "m1_can"
version = "0.1.0"
edition = "2021"
publish = false

[dependencies]
can-dbc = "9"
clap = { version = "4", features = ["derive"] }
roxmltree = "0.21"
toml = "0.9"
