[package]
name = "websocket_proto"
version = "0.1.0"
edition = "2021"
publish = false

[dependencies]
bytes = "1"
fastrand = "2"
futures-util = { version = "0.3", default-features = false, features = ["sink", "std"] }
tokio = { version = "1", default-features = false, features = ["io-util"] }
tokio-util = { version = "0.7", default-features = false, features = ["codec"] }
