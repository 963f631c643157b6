[package]
name = "nap_alarm"
version = "0.1.0"
edition = "2021"
publish = false

[dependencies]
chrono = { version = "=0.4.45", default-features = false, features = ["std", "clock"] }
ksni = { version = "=0.3.7", features = ["blocking"] }
slint = { version = "=1.18.1", default-features = false, features = ["std", "compat-1-2"] }
