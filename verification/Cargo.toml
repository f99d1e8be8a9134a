[package]
name = "f1fm"
version = "0.1.0"
edition = "2021"
publish = false

[dependencies]
serde = { version = "*", features = ["derive"] }
postcard = { version = "*", features = ["alloc"] }
directories-next = "*"
reqwest = { version = "*", default-features = false, features = ["blocking", "json"] }
tokio = { version = "*", features = ["rt", "macros"] }
ergast-rs = "*"
