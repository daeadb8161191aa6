[package]
name = "electricity_price_optimizer"
version = "0.1.0"
edition = "2021"
publish = false

[dependencies]
rand = "=0.9.5"
chrono = "=0.4.45"
pyo3 = { version = "=0.30.1", features = ["chrono"] }
