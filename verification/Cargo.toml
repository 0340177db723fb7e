[package]
name = "pg_resp"
version = "0.1.0"
edition = "2021"
publish = false

[dependencies]
mio = { version = "1", features = ["net", "os-poll"] }
pgrx = "=0.19.2"
