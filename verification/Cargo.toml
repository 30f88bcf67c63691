[package]
name = "magebuild"
version = "0.6.0"
edition = "2021"
publish = false

[dependencies]
anyhow = "=1.0.104"
clap = { version = "=4.6.7", features = ["derive"] }
composer-autoload = "=0.1.0"
composer-install = "=0.2.0"
composer-installers = "=0.1.0"
composer-manifest = "=0.1.0"
composer-patches = "=0.1.0"
gzp = { version = "=0.11.3", default-features = false, features = ["deflate_rust"] }
rayon = "=1.12.0"
serde = { version = "1", features = ["derive"] }
tar = "=0.4.46"
toml = "=0.9.12"
zstd = { version = "=0.13.4", features = ["zstdmt"] }
