[package]
name = "evedatacore_route_planner"
version = "0.1.0"
edition = "2021"
publish = false

[dependencies]
anyhow = "1"
bincode = "1.3"
clap = { version = "4", features = ["derive"] }
env_logger = "*"
indexmap = "2"
indicatif = "*"
lambda_http = "*"
lambda_runtime = "*"
log = "0.4"
num-traits = "0.2"
rustc-hash = "*"
serde = { version = "1", features = ["derive"] }
serde_json = "1"
tokio = { version = "1", features = ["macros", "rt-multi-thread", "sync"] }
uom = "*"
utoipa = "*"
