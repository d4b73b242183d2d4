[package]
name = "facet_search"
version = "0.1.0"
edition = "2021"
publish = false

[dependencies]
actix-cors = "*"
actix-web = { version = "4", default-features = false, features = ["macros"] }
bincode = "=1.3.3"
either = "=1.19.0"
heed = "=0.23.0"
indexmap = { version = "=2.14.2", features = ["serde"] }
log = "=0.4.34"
sdset = "=0.4.0"
serde = { version = "=1.0.229", features = ["derive"] }
serde_json = "=1.0.154"
sha2 = "=0.10.9"
siphasher = "=0.3.11"
structopt = "=0.3.26"
