[package]
name = "jsonb_ivm"
version = "0.1.0"
edition = "2021"
publish = false

[dependencies]
serde_json = "=1.0.154"
pgrx = { version = "=0.16.1", features = ["pg15"] }
