[package]
name = "apex_venue"
version = "1.0.0"
edition = "2021"
publish = false

[dependencies]
sha2 = "0.10"
crc32fast = "1"
crossbeam = "0.8"
bincode = "1"
serde = { version = "1", features = ["derive"] }
clap = { version = "4", features = ["derive"] }
thiserror = "1"
tokio = { version = "1", features = ["rt", "rt-multi-thread", "macros", "time"] }
tracing = "0.1"
tracing-subscriber = { version = "0.3", features = ["json", "env-filter"] }
prometheus = { version = "0.13", default-features = false }
sqlx = { version = "0.7", default-features = false, features = ["postgres", "runtime-tokio"] }
