[package]
name = "ukmm"
version = "0.1.0"
edition = "2021"
publish = false

[dependencies]
anyhow = "=1.0.104"
clap = { version = "=4.6.7", features = ["derive"] }
fs-err = "=3.3.2"
indexmap = "=2.14.2"
join_str = "=0.1.0"
log = "=0.4.34"
parking_lot = "=0.12.5"
roead = { version = "=1.0.0", default-features = false, features = ["aamp", "byml"] }
serde = { version = "=1.0.229", features = ["derive"] }
toml = "=0.5.11"
zip = { version = "=9.1.0", default-features = false, features = ["deflate"] }
