[package]
name = "exercise_extractor"
version = "0.1.0"
edition = "2021"
publish = false

[dependencies]
clap = { version = "3", features = ["derive"] }
hyper = { version = "0.14", features = ["server", "http1", "tcp"] }
mupdf = { version = "*", default-features = false }
tokio = { version = "1", features = ["macros", "rt"] }
