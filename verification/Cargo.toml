[package]
name = "toolbox"
version = "0.1.0"
edition = "2021"
publish = false

[dependencies]
actix-web = { version = "4", default-features = false, features = ["macros"] }
anyhow = "1"
chrono = "0.4"
clap = { version = "4", features = ["derive"] }
clipboard = "0.5"
cpal = "0.16"
printpdf = "0.7"
pulldown-cmark = "0.9"
regex = "1"
serde = { version = "1", features = ["derive"] }
serde_json = "1"
slack-hook = "0.8"
webbrowser = "1"
