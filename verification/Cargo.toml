[package]
name = "ducktails"
version = "0.1.0"
edition = "2021"
publish = false

[dependencies]
async-trait = "0.1"
chrono = "0.4"
clap = { version = "4", features = ["derive"] }
datafusion = { version = "50", default-features = false, features = ["nested_expressions", "string_expressions", "regex_expressions", "unicode_expressions"] }
datafusion-datasource = { version = "50", default-features = false }
glob = "0.3"
tokio = { version = "1", features = ["rt-multi-thread", "macros"] }
