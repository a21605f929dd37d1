[package]
name = "api_gateway"
version = "0.1.0"
edition = "2021"
publish = false

[dependencies]
actix-web = { version = "4", features = ["rustls-0_22"] }
actix-cors = "0.7"
actix-files = "0.6"
argon2 = "0.5"
reqwest = { version = "0.12", default-features = false, features = ["rustls-tls"] }
jsonwebtoken = "9"
serde = { version = "1", features = ["derive"] }
serde_json = "1"
futures-util = "0.3"
rustls = "0.22"
rustls-pemfile = "2"
