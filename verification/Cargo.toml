[package]
name = "aplomado_core"
version = "0.1.0"
edition = "2021"
publish = false

[dependencies]
x509-parser = "0.16"
serde = { version = "1", features = ["derive"] }
serde_json = "1"
tokio = { version = "1", features = ["full"] }
futures = "0.3"
async-trait = "0.1"
reqwest = { version = "0.12", default-features = false, features = ["json", "rustls-tls"] }
rusqlite = { version = "0.32", features = ["bundled"] }
rustls = "0.23"
tokio-rustls = "0.26"
webpki-roots = "0.26"
socket2 = "0.5"
dirs = "5"
chrono = "0.4"
uuid = { version = "1", features = ["v4"] }
thiserror = "1"
clap = { version = "4", features = ["derive"] }
