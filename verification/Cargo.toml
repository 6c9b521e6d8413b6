[package]
name = "sftp_sync"
version = "0.1.0"
edition = "2021"
publish = false

[dependencies]
clap = { version = "4", features = ["derive"] }
ctrlc = "3"
rayon = "1"
rpassword = "7"
ssh2 = "0.9"
