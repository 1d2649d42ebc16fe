[package]
name = "pheno_matcher"
version = "0.1.0"
edition = "2021"
publish = false

[dependencies]
rand = "=0.9.5"
hpo = "=0.12.0"
csv = "=1.4.0"
rusqlite = { version = "=0.40.2", features = ["bundled"] }
serde = { version = "=1.0.229", features = ["derive"] }
serde_json = "=1.0.151"
statrs = "=0.19.1"
tokio = { version = "=1.53.2", features = ["macros", "rt-multi-thread"] }
warp = { version = "=0.4.3", features = ["server"] }
