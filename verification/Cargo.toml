[package]
name = "dms_email_client"
version = "0.2.0"
edition = "2021"
publish = false

[dependencies]
chrono = "=0.4.45"
clap = { version = "=4.6.7", features = ["derive"] }
ct2rs = "=0.9.22"
dirs = "=5.0.1"
hf-hub = "=0.3.2"
imap = "=2.4.1"
mail-parser = "=0.11.9"
native-tls = "=0.2.18"
notify = "=6.1.1"
notify-rust = "=4.18.2"
regex = "=1.13.1"
serde = { version = "=1.0.229", features = ["derive"] }
serde_json = "=1.0.154"
toml = "=0.8.23"
whatlang = "=0.16.4"
