[package]
name = "html_render"
version = "0.1.0"
edition = "2021"
publish = false

[dependencies]
ammonia = "4"
scraper = "0.29"
ego-tree = "*"
unicode-width = "0.2"
ratatui = { version = "0.29", default-features = false }
