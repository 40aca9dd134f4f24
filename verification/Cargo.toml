[package]
name = "quelparti"
version = "0.1.0"
edition = "2021"
publish = false

[dependencies]
actix-files = "0.6"
actix-session = "0.5"
actix-web = "4"
awc = "3"
base64 = "0.13"
chrono = { version = "0.4", features = ["serde"] }
csrf = "0.4"
csv = "1"
diesel = { version = "1.4", features = ["postgres", "r2d2", "chrono", "network-address"] }
diesel_migrations = "1.4"
image = "0.23"
imageproc = "0.22"
ipnetwork = "0.18"
once_cell = "1"
rusttype = "0.9"
serde = { version = "1", features = ["derive"] }
serde_derive = "1"
serde_json = "1"
toml = "0.5"
twapi-reqwest = "*"
