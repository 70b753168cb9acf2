[package]
name = "inventory"
version = "0.2.0"
edition = "2021"
publish = false

[dependencies]
clap = "*"
failure = "*"
molt = "*"
prettytable-rs = "*"
rusoto_core = { version = "*", default-features = false, features = ["rustls"] }
rusoto_credential = "*"
rusoto_ec2 = { version = "*", default-features = false, features = ["rustls"] }
rusoto_sts = { version = "*", default-features = false, features = ["rustls"] }
serde = { version = "*", features = ["derive"] }
serde_json = "*"
tokio = { version = "*", features = ["rt-multi-thread"] }
toml = "*"
