[package]
name = "s3_fs"
version = "0.1.0"
edition = "2021"
publish = false

[dependencies]
rusoto_core = { version = "0.48.0", default-features = false, features = ["rustls"] }
rusoto_s3 = { version = "0.48.0", default-features = false, features = ["rustls"] }
tokio = { version = "1", features = ["macros", "rt-multi-thread"] }
