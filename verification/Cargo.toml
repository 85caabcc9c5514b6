[package]
name = "notes"
version = "0.1.0"
edition = "2021"
publish = false

[dependencies]
anyhow = "1"
clap = { version = "4", features = ["derive"] }
colored = "2"
confy = "0.5"
directories = "5"
exitcode = "1.1"
glob = "0.3"
serde = { version = "1", features = ["derive"] }
serde_derive = "1"
