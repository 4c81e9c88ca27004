[package]
name = "ubiquisync"
version = "0.1.0"
edition = "2021"
publish = false

[dependencies]
jiff = "0.2"
base64 = "0.22"
sea-query = { version = "1.0.0-rc.1", features = ["with-uuid"] }
uuid = "1"
flate2 = "1"
tokio-postgres = { version = "0.7", features = ["with-uuid-1"] }
deadpool-postgres = "0.14"
tokio = { version = "1", features = ["rt", "sync", "macros"] }
bytes = "1"
futures-util = "0.3"
async-trait = "0.1"
thiserror = "2"
