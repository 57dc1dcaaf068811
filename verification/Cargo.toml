[package]
name = "sqlparser-plpgsql"
version = "0.1.0"
edition = "2021"
publish = false

[dependencies]
sqlparser = { version = "*", default-features = false }
thiserror = "*"
