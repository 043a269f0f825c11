[package]
name = "profile_match"
version = "0.1.0"
edition = "2021"
publish = false

[dependencies]
axum = "*"
dotenvy = "*"
serde = { version = "1", features = ["derive"] }
sqlx = { version = "*", default-features = false, features = ["mysql", "runtime-tokio"] }
tokio = { version = "1", features = ["macros", "net", "rt-multi-thread", "sync"] }
tower-http = { version = "*", features = ["cors"] }
