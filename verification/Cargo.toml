[package]
name = "bg3-translate-core"
version = "0.1.0"
edition = "2021"
publish = false

[dependencies]
quick-xml = "=0.42.0"
regex = "=1.13.1"
aho-corasick = "=1.1.5"
serde = { version = "=1.0.229", features = ["derive"] }
serde_json = "=1.0.154"
thiserror = "=2.0.21"
log = "=0.4.35"
tokio = { version = "=1.54.1", features = ["sync", "time", "macros", "rt"] }
futures-util = "=0.3.34"
reqwest = { version = "=0.13.5", default-features = false, features = ["json", "stream"] }
async-openai = { version = "=0.43.0", default-features = false, features = ["chat-completion-types"] }
zip = { version = "=9.2.2", default-features = false, features = ["deflate"] }
directories = "=6.0.0"
bg3rustpaklib = "=0.1.5"
