[package]
name = "invoice_ledger"
version = "0.1.0"
edition = "2021"
publish = false

[dependencies]
chrono = "=0.4.45"
clap = { version = "=4.6.7", features = ["derive"] }
comfy-table = "=8.0.1"
directories = "=6.0.0"
inquire = { version = "=0.9.4", features = ["date"] }
regex = "=1.13.1"
rfd = { version = "=0.17.2", default-features = false, features = ["xdg-portal"] }
serde = { version = "=1.0.229", features = ["derive"] }
slug = "=0.1.6"
tera = "=1.20.1"
toml = "=1.1.8"
zipcodes = "=3.0.0"
