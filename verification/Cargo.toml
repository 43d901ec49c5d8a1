[package]
name = "web_modules"
version = "0.1.0"
edition = "2021"
publish = false

[dependencies]
clap = { version = "=4.6.7", features = ["derive", "env"] }
flate2 = "=1.1.10"
jsonc-parser = { version = "=0.34.0", features = ["serde"] }
md-tmpl = "=0.10.6"
npm-utils = { version = "=0.6.2", features = ["cli"] }
oxc_allocator = "=0.138.0"
oxc_ast = "=0.138.0"
oxc_ast_visit = "=0.138.0"
oxc_parser = "=0.138.0"
oxc_span = "=0.138.0"
serde_json = { version = "=1.0.154", features = ["preserve_order"] }
tera = "=1.20.1"
tokio = { version = "=1.54.1", features = ["rt"] }
walkdir = "=2.5.0"
