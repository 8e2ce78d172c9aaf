[package]
name = "result_query"
version = "0.1.0"
edition = "2021"
publish = false

[dependencies]
itertools = "0.10"
chrono = "0.4"
bson = { version = "2", features = ["chrono-0_4"] }
mongodb = "2"
actix-web = "4"
redlock = "*"
serde = { version = "1", features = ["derive"] }
serde_json = "1"
futures = "0.3"
