[package]
name = "weland"
version = "0.1.0"
edition = "2021"
publish = false

[dependencies]
anyhow = "*"
base64 = "*"
clap = { version = "*", features = ["derive"] }
colored = "*"
directories = "*"
ego-tree = "*"
gethostname = "*"
hex = "*"
mdns-sd = "*"
mime_guess = "*"
percent-encoding = "*"
roxmltree = "*"
rusqlite = { version = "*", features = ["bundled"] }
scraper = "*"
serde = { version = "*", features = ["derive"] }
serde_json = "*"
sha2 = "*"
tiny_http = "*"
ureq = { version = "*", features = ["json"] }
whoami = "*"
zip = { version = "*", default-features = false, features = ["deflate"] }

[dev-dependencies]
tempfile = "*"
