[package]
name = "lookup_table_registry"
version = "0.1.0"
edition = "2021"
publish = false

[dependencies]
solana-program = "=5.1.0"
solana-address-lookup-table-interface = { version = "=4.0.0", features = ["bincode", "bytemuck"] }
serde = { version = "*", features = ["derive"] }
serde_with = "*"
axum = "*"
tower-http = { version = "*", features = ["cors"] }
tokio = { version = "*", features = ["macros", "rt-multi-thread", "time"] }
tracing = "*"
tracing-subscriber = "*"
dotenv = "*"
thiserror = "*"
anyhow = "*"
async-trait = "*"

[dev-dependencies]
bincode = "=1.3.3"
