[package]
name = "devset-core"
version = "0.1.0"
edition = "2021"
publish = false

[dependencies]
blake3 = "=1.8.7"
unicode-normalization = "=0.1.26"
shlex = "=1.3.0"
diffy = "=0.5.2"
serde_json = "=1.0.154"
toml = "=1.1.8"
serde-saphyr = "=2.0.0"
jsonc-parser = "=0.34.0"
globset = "=0.4.21"
semver = "=1.0.28"
camino = "=1.2.6"
camino-tempfile = "=1.4.1"
fs-err = "=3.3.2"
serde = { version = "=1.0.229", features = ["derive"] }
toml_edit = { version = "=0.25.17", features = ["serde"] }
minijinja = "=2.24.0"
ignore = "=0.4.34"
etcetera = "*"
