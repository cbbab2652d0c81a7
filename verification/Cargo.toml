[package]
name = "zero_to_prod"
version = "0.1.0"
edition = "2021"
publish = false

[dependencies]
actix-web = { version = "=4.18.1", default-features = false, features = ["macros"] }
axum = "=0.6.20"
chrono = { version = "=0.4.45", features = ["serde"] }
diesel = { version = "=2.3.14", features = ["postgres", "r2d2", "chrono", "uuid"] }
diesel_migrations = "=2.3.2"
dotenvy = "=0.15.7"
hyper = { version = "=0.14.32", features = ["full"] }
lazy_static = "=1.5.1"
log = "=0.4.35"
proc-macro2 = "=1.0.107"
quote = "=1.0.47"
r2d2 = "=0.8.10"
regex = "=1.13.1"
serde = { version = "=1.0.229", features = ["derive"] }
syn = { version = "=1.0.109", features = ["full", "extra-traits"] }
tokio = { version = "=1.54.1", features = ["full"] }
tower-http = { version = "=0.4.4", features = ["trace"] }
tracing = "=0.1.44"
tracing-log = "=0.1.4"
tracing-subscriber = { version = "=0.3.23", features = ["env-filter", "time"] }
utoipa = "=3.5.0"
utoipa-swagger-ui = { version = "=3.1.5", features = ["axum"] }
uuid = { version = "=1.29.1", features = ["v4", "serde"] }
