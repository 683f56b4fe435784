[package]
name = "warcse"
version = "0.1.0"
edition = "2021"
publish = false

[dependencies]
convert_case = "*"
serde = { version = "*", features = ["derive"] }
serde_json = "*"
log = "*"
simple_logger = "*"
sqlx = { version = "*", default-features = false, features = ["postgres", "runtime-tokio", "macros"] }
actix-web = "*"
actix-cors = "*"
actix-files = "*"
