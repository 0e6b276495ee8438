[package]
name = "everdiff"
version = "0.1.0"
edition = "2021"
publish = false

[dependencies]
similar = "=3.2.1"
owo-colors = "=4.4.0"
ansi-width = "=0.1.1"
unicode-width = "=0.2.3"
comfy-table = "=8.0.1"
indent = "=0.1.1"
saphyr = "=0.3.3"
camino = "=1.2.6"
bpaf = "=0.9.28"
anyhow = "=1.0.104"
termsize = "=0.1.9"
notify = "=8.2.1"
env_logger = "=0.11.11"
log = "=0.4.35"
serde = { version = "=1.0.229", features = ["derive"] }
serde_json = "=1.0.154"
json-patch = "=4.2.0"
jsonptr = "=0.8.2"
serde-saphyr = "=2.0.0"
clap = { version = "4", features = ["derive"] }

[dev-dependencies]
indoc = "=2.0.8"
