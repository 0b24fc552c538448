[package]
name = "md_archive"
version = "0.1.0"
edition = "2021"
publish = false

[dependencies]
pulldown-cmark = "*"
git2 = { version = "*", default-features = false }
rocket = "0.5"
rocket_dyn_templates = { version = "*", features = ["handlebars"] }
tokio = { version = "1", features = ["sync", "time", "rt-multi-thread", "macros"] }
