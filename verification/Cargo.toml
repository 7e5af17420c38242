[package]
name = "gnss_beacon"
version = "0.1.0"
edition = "2021"
publish = false

[dependencies]
nmea = { version = "=0.8.0", default-features = false, features = ["std", "GGA", "GLL", "GNS", "RMC"] }
log = "=0.4.34"
esp-idf-svc = "=0.53.0"
