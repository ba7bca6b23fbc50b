[package]
name = "okf"
version = "0.1.0"
edition = "2021"
publish = false

[dependencies]
serde_json = "=1.0.154"
sqlparser = "=0.63.0"
syn = { version = "=2.0.119", features = ["full"] }
rustpython-parser = "=0.4.0"
oxc_parser = "=0.143.0"
oxc_allocator = "=0.143.0"
oxc_span = "=0.143.0"
