[package]
name = "hanabi_standings"
version = "0.1.0"
edition = "2021"
publish = false

[dependencies]
actix-files = "*"
actix-http = "*"
actix-rt = "*"
actix-web = "*"
actix-web-httpauth = "*"
anyhow = "1"
chrono = { version = "=0.4.45", features = ["serde"] }
dotenv = "*"
env_logger = "*"
futures = "0.3"
handlebars = "*"
itertools = "*"
listenfd = "*"
log = "0.4"
serde = { version = "1", features = ["derive"] }
serde_json = "1"
serde_qs = "*"
sqlx = { version = "*", features = ["chrono", "postgres", "runtime-tokio"] }
thiserror = "1"
urlencoding = "=2.1.3"
