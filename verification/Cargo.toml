[package]
name = "group_files_into_dir"
version = "0.1.0"
edition = "2021"
publish = false

[dependencies]
regex = "1"
thiserror = "1"
clap = { version = "4", features = ["derive"] }
owo-colors = "4"
spinners = "4"
cursive = { version = "0.21", default-features = false, features = ["crossterm-backend"] }
