[package]
name = "tinymark"
version = "0.1.0"
edition = "2021"
publish = false

[dependencies]
chrono = { version = "0.4", features = ["serde"] }
clap = { version = "3", features = ["derive"] }
confy = "0.4"
dialoguer = "0.10"
exitcode = "1"
paris = { version = "1", features = ["macros"] }
serde = { version = "1", features = ["derive"] }
serde_json = "1"
sled = "0.34"
url = { version = "2", features = ["serde"] }
uuid = { version = "1", features = ["v4", "serde"] }

[dev-dependencies]
bincode = "1"
