[package]
name = "linksuggestion-core"
version = "0.1.0"
edition = "2021"
publish = false

[dependencies]
bloomfilter = "3"
tree-sitter = "0.25"
tree-sitter-wikitext = "*"
rusqlite = { version = "*", features = ["bundled"] }
reqwest = { version = "0.12", default-features = false, features = ["rustls-tls"] }
tokio = { version = "1", features = ["macros", "rt-multi-thread"] }
clap = { version = "4", features = ["derive"] }
serde = { version = "1", features = ["derive"] }
serde_json = "1"
rayon = "1"
quick-xml = "*"
bzip2 = "*"
actix-web = { version = "4", default-features = false, features = ["macros", "compress-gzip"] }
actix-files = "*"
handlebars = "*"
env_logger = "*"
