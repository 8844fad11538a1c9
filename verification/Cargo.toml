[package]
name = "vcore"
version = "0.1.0"
edition = "2021"
publish = false

[dependencies]
rustc_apfloat = "=0.2.3"
const_soft_float = "=0.1.4"
serde = { version = "*", features = ["derive"] }
thiserror = "*"
log = "*"
env_logger = "*"
dotenv = "*"
