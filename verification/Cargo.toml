[package]
name = "lgrep"
version = "0.1.0"
edition = "2021"
publish = false

[dependencies]
anyhow = "=1.0.104"
bincode = "=1.3.3"
chrono = { version = "=0.4.45", default-features = false, features = ["clock", "std"] }
clap = { version = "=4.6.7", features = ["derive", "env"] }
colored = "=2.2.0"
hex = "=0.4.3"
ignore = "=0.4.33"
indicatif = "=0.17.11"
notify = "=6.1.1"
notify-debouncer-mini = "=0.4.1"
num_cpus = "=1.17.0"
rayon = "=1.12.0"
regex = "=1.13.1"
serde = { version = "=1.0.229", features = ["derive"] }
serde_json = "=1.0.154"
sha2 = "=0.10.9"
thiserror = "=1.0.69"
tracing = "=0.1.44"
tracing-subscriber = { version = "=0.3.23", features = ["env-filter"] }
usearch = { version = "=2.26.6", default-features = false }
