[package]
name = "typhon"
version = "0.1.0"
edition = "2021"
publish = false

[dependencies]
tokio = { version = "1", features = ["full"] }
serde = { version = "1", features = ["derive"] }
serde_json = "1"
clap = { version = "4", features = ["derive", "env"] }
git2 = { version = "*", default-features = false }
axum = "0.7"
reqwest = { version = "0.12", default-features = false, features = ["json"] }
nix-daemon = "*"
diesel = { version = "2", default-features = false, features = ["postgres_backend"] }
diesel-async = { version = "0.5", features = ["postgres", "bb8"] }
tracing-subscriber = "0.3"
