[package]
name = "mailstat"
version = "0.1.0"
edition = "2021"
publish = false

[dependencies]
anyhow = "=1.0.104"
chrono = "=0.4.45"
clap = { version = "=4.6.7", features = ["derive"] }
email-address-parser = "=2.0.2"
env_logger = "=0.11.11"
lettre = "=0.11.23"
plotters = "=0.3.7"
prettytable-rs = "=0.10.0"
