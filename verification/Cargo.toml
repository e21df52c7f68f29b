[package]
name = "dsql_auth"
version = "0.1.0"
edition = "2021"
publish = false

[dependencies]
aws-sigv4 = "*"
aws-credential-types = "*"
aws-config = "*"
aws-sdk-dsql = "*"
anyhow = "*"
rand = "*"
uuid = { version = "*", features = ["v4"] }
tokio = { version = "*", features = ["rt-multi-thread", "macros", "time"] }

[dev-dependencies]
url = "*"
