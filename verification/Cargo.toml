[package]
name = "table_canon_core"
version = "0.1.0"
edition = "2021"
publish = false

[dependencies]
anyhow = "1"
arboard = { version = "=3.7.0", default-features = false }
chrono = { version = "0.4", default-features = false, features = ["now"] }
eframe = { version = "=0.31.1", default-features = false, features = ["glow", "default_fonts"] }
encoding_rs = "=0.8.44"
hex = "=0.4.3"
ort = { version = "=2.0.0-rc.15", default-features = false, features = ["std", "load-dynamic"] }
pinyin = "=0.10.0"
regex = "=1.13.1"
rfd = { version = "=0.15.4", default-features = false, features = ["xdg-portal", "tokio"] }
rusqlite = { version = "=0.32.1", features = ["bundled", "backup"] }
serde = { version = "1", features = ["derive"] }
serde_json = "=1.0.154"
sha1 = "=0.10.7"
tokenizers = { version = "=0.21.4", default-features = false, features = ["fancy-regex"] }
toml = "0.9"
ureq = { version = "=2.12.1", default-features = false, features = ["json"] }
walkdir = "2"
winit = { version = "=0.30.13", default-features = false, features = ["x11"] }
zip = { version = "=2.6.1", default-features = false, features = ["deflate"] }
