[package]
name = "chrono_schism_log_viewer"
version = "0.1.0"
edition = "2021"
publish = false

[dependencies]
regex = "*"
serde = { version = "*", features = ["derive"] }
serde_json = "*"
directories = "*"
log = "*"
simplelog = "*"
time = { version = "*", features = ["macros", "formatting", "local-offset"] }
