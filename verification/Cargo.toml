[package]
name = "qspost"
version = "0.1.0"
edition = "2021"
publish = false

[dependencies]
clap = { version = "4", features = ["derive"] }
mastodon-async = "1"
rocket = { version = "0.5", features = ["secrets"] }
rocket_dyn_templates = { version = "*", features = ["handlebars"] }
serde = { version = "1", features = ["derive"] }
serde_json = "1"
thiserror = "1"
