[package]
name = "vanvitelli"
version = "0.1.0"
edition = "2021"
publish = false

[dependencies]
amqprs = "*"
tokio = { version = "*", features = ["macros", "rt-multi-thread"] }
async-trait = "*"
log = "*"
env_logger = "*"
anyhow = "*"
serde_json = "*"
thiserror = "*"
