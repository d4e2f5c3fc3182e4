[package]
name = "df_utils"
version = "0.1.0"
edition = "2021"

[dependencies]
unicode_categories = "0.1"
clap = { version = "4", features = ["derive"] }
