[package]
name = "rl_scheduler"
version = "0.1.0"
edition = "2021"
publish = false

[dependencies]
libafl = { version = "0.11", default-features = false, features = ["std", "derive", "prelude", "serdeany_autoreg"] }
libafl_bolts = { version = "0.11", default-features = false, features = ["std", "derive", "prelude", "serdeany_autoreg"] }
serde = { version = "1", features = ["derive"] }
tracing = "0.1"
