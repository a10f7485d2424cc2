[package]
name = "hocon"
version = "0.1.0"
edition = "2021"
publish = false

[dependencies]
aho-corasick = "1"
java-properties = "2"
uuid = { version = "1", features = ["v4"] }
reqwest = { version = "0.12", default-features = false, features = ["blocking"] }
serde_json = "1"
