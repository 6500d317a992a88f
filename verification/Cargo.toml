[package]
name = "nail_agent"
version = "0.1.0"
edition = "2021"
publish = false

[dependencies]
regex = "=1.13.1"
ascon-hash = "=0.4.0"
glob = "=0.3.4"
anyhow = "=1.0.104"
serde = { version = "=1.0.229", features = ["derive"] }
serde_json = "=1.0.154"
tokio = { version = "=1.54.1", features = ["full"] }
tokio-util = "=0.7.20"
futures = "=0.3.34"
futures-util = "=0.3.34"
clap = { version = "=4.6.7", features = ["derive"] }
chrono = "=0.4.45"
uuid = { version = "=1.29.0", features = ["v4", "v7"] }
log = "=0.4.35"
fern = "=0.7.1"
once_cell = "=1.21.4"
dotenvy = "=0.15.7"
libc = "=0.2.191"
ignore = "=0.4.34"
rayon = "=1.12.0"
toml = "=1.1.8"
tracing = "=0.1.44"
tracing-subscriber = { version = "=0.3.23", features = ["env-filter"] }
fs2 = "=0.4.3"
agdb = "=0.16.0"
rmcp = { version = "=3.8.0", features = ["server", "client", "transport-io", "transport-streamable-http-server"] }
async-openai = { version = "=0.43.0", features = ["chat-completion"] }
agent-client-protocol = { version = "=5.0.0", features = ["stdio"] }
reqwest = { version = "=0.13.5", features = ["json"] }
axum = "=0.8.9"
