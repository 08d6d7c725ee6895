[package]
name = "packer"
version = "0.1.0"
edition = "2021"
publish = false

[dependencies]
anyhow = "=1.0.104"
clap = { version = "=4.6.7", features = ["derive"] }
crunch = "=0.3.3"
handlebars_misc_helpers = { version = "=0.17.0", default-features = false, features = ["string"] }
image = { version = "=0.25.10", default-features = false, features = ["png", "jpeg"] }
rapid-qoi = "=0.6.3"
ron = "=0.12.2"
serde = { version = "=1.0.229", features = ["derive"] }
serde_json = "=1.0.154"
thiserror = "=2.0.21"
toml = "=1.1.8"

[dev-dependencies]
binary_rw = "=4.1.0"
