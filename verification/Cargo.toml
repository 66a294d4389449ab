[package]
name = "mygit"
version = "0.1.0"
edition = "2021"
publish = false

[dependencies]
chrono = { version = "0.4", default-features = false, features = ["std"] }
clap = { version = "4", features = ["derive"] }
configparser = "3"
glob = "0.3"
hex = "0.4"
ordermap = "*"
sha1 = "0.10"
zune-inflate = "0.2"
