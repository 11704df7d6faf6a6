[package]
name = "maa_auth_core"
version = "0.1.0"
edition = "2021"
publish = false

[dependencies]
bcrypt = "*"
jsonwebtokens = "*"
rand = "*"
uuid = { version = "*", features = ["v4"] }
chrono = "*"
validator = "*"
serde = { version = "*", features = ["derive"] }
serde_json = "*"
redis = { version = "*", features = ["tokio-comp"] }
bb8 = "*"
tokio = { version = "*", features = ["rt-multi-thread", "macros", "net", "sync", "time"] }
mail-send = "*"
tokio-rustls = "*"
mongodb = "*"
bson = "*"
axum = "*"
tower = "*"
http = "*"
local-ip-address = "*"
thiserror = "*"
