[package]
name = "gfroerli_bot"
version = "0.1.0"
edition = "2021"
publish = false

[dependencies]
anyhow = "1"
async-trait = "0.1"
chrono = { version = "0.4", default-features = false, features = ["clock", "serde", "std"] }
chrono-tz = "*"
config = { version = "*", default-features = false, features = ["toml"] }
image = { version = "0.25", default-features = false, features = ["png"] }
plotters = { version = "0.3", default-features = false, features = ["ab_glyph", "bitmap_backend", "chrono", "line_series"] }
reqwest = { version = "0.12", default-features = false, features = ["json", "rustls-tls"] }
serde = { version = "1", features = ["derive"] }
sqlx = { version = "0.8", default-features = false, features = ["chrono", "derive", "macros", "runtime-tokio", "sqlite"] }
threema-gateway = "*"
threema-gateway-bot = "*"
tokio = { version = "1", features = ["macros", "rt-multi-thread", "sync", "time"] }
tracing = "0.1"
tracing-subscriber = { version = "0.3", features = ["env-filter"] }

[dev-dependencies]
serde_json = "1"
