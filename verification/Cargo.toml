[package]
name = "meteo_archive"
version = "0.1.0"
edition = "2021"
publish = false

[dependencies]
flate2 = "*"
indicatif = "*"
postgres = { version = "*", features = ["with-time-0_3"] }
quick-xml = "*"
rayon = "*"
serde = { version = "*", features = ["derive"] }
serde_json = "*"
time = { version = "*", features = ["macros", "parsing", "formatting", "serde"] }
