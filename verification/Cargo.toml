[package]
name = "o1zkvm"
version = "0.1.0"
edition = "2021"
publish = false

[dependencies]
ark-ec = "=0.5.0"
ark-ff = "=0.5.0"
ark-pallas = "=0.5.0"
ark-vesta = "=0.5.0"
clap = { version = "=4.6.7", features = ["derive"] }
sp1-zkvm = "=6.1.0"
tokio = { version = "=1.54.1", features = ["macros", "rt-multi-thread"] }

[dev-dependencies]
rand_chacha = "=0.3.1"
rand_core = "=0.6.4"
