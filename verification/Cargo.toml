[package]
name = "near_rss"
version = "0.1.0"
edition = "2021"
publish = false

[dependencies]
feed-rs = "*"
rand = "*"
serde = { version = "*", features = ["derive"] }
anyhow = "*"
tokio = { version = "*", features = ["macros", "rt-multi-thread", "time"] }
reqwest = { version = "*", default-features = false }
again = "*"
futures = "*"
actix-web = { version = "*", default-features = false, features = ["macros"] }
