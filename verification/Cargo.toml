[package]
name = "webreg_ics"
version = "0.1.0"
edition = "2021"
publish = false

[dependencies]
scraper = "*"
uuid = { version = "*", features = ["v4"] }
ical = { version = "*", features = ["ical", "generator"] }
chrono = "*"
axum = { version = "*", features = ["multipart"] }
tokio = { version = "*", features = ["rt-multi-thread", "net", "macros"] }
