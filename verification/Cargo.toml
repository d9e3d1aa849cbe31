[package]
name = "truecalc_workbook"
version = "0.1.0"
edition = "2021"
publish = false

[dependencies]
icu_casemap = "2"
serde = { version = "1", features = ["derive"] }
serde_json = "1"
chrono = "0.4"
chrono-tz = "0.10"
ryu-js = "1"
