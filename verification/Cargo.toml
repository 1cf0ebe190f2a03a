[package]
name = "inverted_index"
version = "0.1.0"
edition = "2021"
publish = false

[dependencies]
anyhow = "*"
fb2 = "*"
human_bytes = "*"
itertools = "*"
memmap = "*"
nalgebra = "*"
num_cpus = "*"
quick-xml = { version = "*", features = ["serialize"] }
rand = "*"
rayon = "*"
serde = { version = "*", features = ["derive"] }
serde_json = "*"
threadpool = "*"
