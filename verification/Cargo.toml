[package]
name = "camp"
version = "0.1.0"
edition = "2021"
publish = false

[dependencies]
axum = "0.5"
blake3 = { version = "1", features = ["pure"] }
csv = "1"
futures = "0.3"
handlebars = { version = "4", features = ["dir_source"] }
log = "0.4"
once_cell = "1"
rand = "0.8"
serde = { version = "1", features = ["derive"] }
serde_json = "1"
simplelog = "0.12"
smallstr = "0.3"
smallvec = "1"
time = { version = "0.3", features = ["formatting", "macros", "parsing"] }
tokio = { version = "1", features = ["macros", "rt", "sync", "time"] }
tokio-postgres = { version = "0.7", features = ["with-time-0_3"] }
toml = "0.5"
tower-http = { version = "0.3", features = ["fs"] }
