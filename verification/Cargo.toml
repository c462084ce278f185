[package]
name = "wormhole_nym"
version = "0.1.0"
edition = "2021"
publish = false

[dependencies]
anyhow = "1"
bincode = "1.3"
chacha20poly1305 = "0.10"
clap = { version = "4", features = ["derive"] }
futures = "0.3"
indicatif = "0.17"
rand = "0.8"
sha2 = "0.10"
spake2 = "0.4"
tokio = { version = "1", features = ["macros", "rt-multi-thread", "signal", "time"] }
tracing-subscriber = { version = "0.3", features = ["env-filter"] }
wasm-bindgen = "0.2"

[dev-dependencies]
serde = "1"
