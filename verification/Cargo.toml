[package]
name = "doc_indexer"
version = "0.1.0"
edition = "2021"
publish = false

[dependencies]
whatlang = "=0.18.0"
lingua = { version = "=1.8.0", default-features = false, features = ["english", "french", "german", "spanish", "italian", "portuguese", "greek", "dutch", "russian", "arabic", "japanese", "korean"] }
stopwords = "=0.1.1"
serde = { version = "=1.0.229", features = ["derive"] }
serde_json = "=1.0.154"
chrono = "=0.4.45"
tokio = { version = "=1.54.1", features = ["macros", "rt-multi-thread"] }
rig-core = { version = "=0.31.0", default-features = false }
