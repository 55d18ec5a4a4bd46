[package]
name = "mdbook_tracey"
version = "0.1.0"
edition = "2021"
publish = false

[dependencies]
anyhow = "=1.0.104"
clap = { version = "=4.6.7", features = ["derive"] }
facet-styx = "=4.0.0"
marq = { version = "=4.0.1", default-features = false }
mdbook-preprocessor = "=0.5.4"
pulldown-cmark = "=0.13.6"
semver = "=1.0.28"
serde = { version = "=1.0.229", features = ["derive"] }
serde_json = "=1.0.154"
tracey-config = "=1.3.0"
