[package]
name = "filework"
version = "0.1.0"
edition = "2021"
publish = false

[dependencies]
flate2 = "1"
bzip2-rs = "*"
lzma-rs = "*"
tar = "*"
zip = "*"
dirs = "*"
serde = { version = "1", features = ["derive"] }
russh = "*"
russh-sftp = "*"
tokio = { version = "1", features = ["rt", "rt-multi-thread", "sync", "net", "time", "io-util", "macros"] }

[dev-dependencies]
serde_json = "1"
