[package]
name = "mysql_binlog"
version = "0.1.0"
edition = "2021"
publish = false

[dependencies]
dotenv = "0.15"
futures = "0.3"
sha1 = "0.10"
sha2 = "0.10"
