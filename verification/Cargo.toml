[package]
name = "event_router"
version = "0.1.0"
edition = "2021"
publish = false

[dependencies]
actix = "*"
actix-web = "*"
actix-web-actors = "*"
futures = "*"
serde = { version = "*", features = ["derive"] }
serde_derive = "*"
serde_json = "*"
