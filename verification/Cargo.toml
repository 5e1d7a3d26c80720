[package]
name = "meterm"
version = "0.1.0"
edition = "2021"
publish = false

[dependencies]
lz4_flex = "*"
egui = "*"
ewebsock = "*"
tokio = { version = "*", features = ["rt-multi-thread", "net", "sync", "time", "macros"] }
tokio-tungstenite = "*"
futures-util = "*"
log = "*"
