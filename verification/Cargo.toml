[package]
name = "logbrin"
version = "0.1.0"
edition = "2021"
publish = false

[dependencies]
pcre2 = "*"
zstd = "*"
rand = "*"
chrono = "0.4"
chrono-english = "*"
clap = { version = "4", features = ["derive"] }
rayon = "*"
