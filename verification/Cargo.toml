[package]
name = "yaebook"
version = "0.1.0"
edition = "2021"
publish = false

[dependencies]
html5ever = "=0.27.0"
markup5ever_rcdom = "=0.3.0"
serde = { version = "=1.0.229", features = ["derive"] }
serde_json = "=1.0.154"
thiserror = "=2.0.21"
time = { version = "=0.3.55", features = ["formatting"] }
ureq = { version = "=2.12.1", features = ["json"] }
xmltree = { version = "=0.12.0", features = ["attribute-order"] }
zip = { version = "=2.6.1", default-features = false, features = ["deflate"] }
