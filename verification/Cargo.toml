[package]
name = "bn-loader"
version = "0.1.0"
edition = "2021"
publish = false

[dependencies]
clap = { version = "4", features = ["derive"] }
clap_complete = { version = "4", features = ["unstable-dynamic"] }
globset = "0.4"
semver = "1"
serde = { version = "1", features = ["derive"] }
serde_json = "1"
termcolor = "1"
toml = "*"
ureq = "3"
