[package]
name = "qcmweb"
version = "0.1.0"
edition = "2021"
publish = false

[dependencies]
rand = "=0.9.5"
sha2 = "=0.10.9"
argon2 = "=0.6.0"
time = { version = "=0.3.55", features = ["serde-well-known", "formatting", "parsing", "macros"] }
uuid = { version = "=1.29.0", features = ["v4", "serde"] }
serde = { version = "=1.0.229", features = ["derive"] }
serde_json = "=1.0.154"
serde_norway = "=0.9.42"
axum = "=0.8.9"
axum-extra = { version = "=0.12.6", features = ["cookie"] }
sqlx = { version = "=0.8.6", default-features = false, features = ["runtime-tokio", "postgres", "uuid", "time", "json", "migrate", "macros"] }
tokio = { version = "=1.54.1", features = ["full"] }
tower-http = { version = "=0.7.1", features = ["trace"] }
tracing = "=0.1.44"
tracing-subscriber = { version = "=0.3.23", features = ["env-filter", "fmt"] }
utoipa = { version = "=6.0.0", features = ["uuid", "time"] }
utoipa-axum = "=0.3.0"
rmcp = { version = "=3.8.0", features = ["server", "macros", "transport-streamable-http-server", "schemars"] }
dotenvy = "=0.15.7"
ipnet = "=2.12.2"
rpassword = "=7.5.4"
thiserror = "=2.0.21"
