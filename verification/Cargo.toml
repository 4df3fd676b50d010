[package]
name = "agent_html_lint"
version = "0.1.0"
edition = "2021"
publish = false

[dependencies]
html5gum = "*"
ignore = "*"
rayon = "*"
serde = { version = "1", features = ["derive"] }
serde_json = "1"
