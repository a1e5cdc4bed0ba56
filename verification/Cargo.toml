[package]
name = "nspr"
version = "0.1.0"
edition = "2021"
publish = false

[dependencies]
async-trait = "=0.1.92"
auth-git2 = "=0.6.0"
clap = { version = "=4.6.7", features = ["derive"] }
color-eyre = "=0.6.5"
console = "=0.16.6"
dialoguer = "=0.12.0"
env_logger = "=0.11.11"
git2 = "=0.21.0"
git2-ext = "=2.0.0"
lazy-regex = "=3.6.2"
log = "=0.4.35"
octocrab = "=0.41.2"
serde = { version = "=1.0.229", features = ["derive"] }
serde_json = "=1.0.154"
tokio = { version = "=1.54.1", features = ["rt", "time", "macros"] }
unicode-normalization = "=0.1.26"

[dev-dependencies]
tempfile = "=3.27.0"
