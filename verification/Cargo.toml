[package]
name = "maploc"
version = "0.1.0"
edition = "2021"
publish = false

[dependencies]
bincode = "1.3"
rand = "0.8"
rand_distr = "0.4"
serde = { version = "1", features = ["derive"] }
