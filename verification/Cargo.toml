[package]
name = "flex_updater_mc"
version = "0.1.0"
edition = "2021"
publish = false

[dependencies]
anyhow = "=1.0.104"
async-trait = "=0.1.92"
fastanvil = "=0.32.0"
fastnbt = "=2.6.3"
flate2 = "=1.1.10"
futures = "=0.3.34"
num_cpus = "=1.17.0"
rand = "=0.10.3"
reqwest = { version = "=0.12.28", default-features = false, features = ["rustls-tls"] }
serde = { version = "=1.0.229", features = ["derive"] }
serde_json = "=1.0.151"
tokio = { version = "=1.53.2", features = ["full"] }
url = "=2.5.8"
