[package]
name = "scoreboard_rs"
version = "0.1.0"
edition = "2021"
publish = false

[dependencies]
axum = { version = "0.8", features = ["ws"] }
axum-extra = { version = "0.10", features = ["typed-header"] }
clap = { version = "4", features = ["derive"] }
crossbeam = "0.8"
futures-util = { version = "0.3", features = ["sink"] }
headers = "0.4"
log = "0.4"
log4rs = "1"
prometheus = { version = "0.14", default-features = false }
regex = "1"
serde = { version = "1", features = ["derive"] }
serde_json = "1"
serde_yaml_ng = "0.10"
thiserror = "2"
tokio = { version = "1", features = ["full"] }
tower = "0.5"
tower-http = { version = "0.6", features = ["fs", "trace"] }
uuid = { version = "1", features = ["v4"] }
