[package]
name = "order_processor"
version = "0.1.0"
edition = "2021"
publish = false

[dependencies]
strsim = "*"
rayon = "*"
calamine = "*"
chrono = "*"
colored = "*"
xlsxwriter = "*"
