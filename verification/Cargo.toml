[package]
name = "workout_recovery"
version = "0.1.0"
edition = "2021"
publish = false

[dependencies]
rand = "0.9"
clap = { version = "4", features = ["cargo"] }
directories = "6"
