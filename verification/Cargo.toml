[package]
name = "tracebridge"
version = "0.1.0"
edition = "2021"
publish = false

[dependencies]
chrono = "0.4"
clap = { version = "4", features = ["derive"] }
nix = { version = "0.30", features = ["fs", "poll", "process", "signal", "term", "user"] }
serde = "1"
serde_json = { version = "1", features = ["arbitrary_precision", "preserve_order"] }
signal-hook = "0.3"
tokio = { version = "1", features = ["io-util", "macros", "net", "process", "rt", "signal", "sync", "time"] }
toml = "0.9"
