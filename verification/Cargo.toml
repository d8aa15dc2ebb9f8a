[package]
name = "eintel"
version = "0.1.0"
edition = "2021"
publish = false

[dependencies]
bson = "2"
chrono = "0.4"
encoding = "0.2"
log = "0.4"
memmap = "0.7"
notify = "4"
notify-rust = "4"
regex = "1"
serde = { version = "1", features = ["derive"] }
