[package]
name = "daps"
version = "0.1.0"
edition = "2021"
publish = false

[dependencies]
aes-gcm = "0.10"
base64 = "0.22"
rand = "0.8"
sha2 = "0.10"
colored = "2"
rusoto_core = { version = "0.48", default-features = false, features = ["rustls"] }
rusoto_ssm = { version = "0.48", default-features = false, features = ["rustls"] }
rustyline = "13"
structopt = "0.3"
tokio = { version = "1", features = ["macros", "rt-multi-thread"] }
