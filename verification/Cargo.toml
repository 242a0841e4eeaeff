[package]
name = "tableizer"
version = "0.1.0"
edition = "2021"
publish = false

[dependencies]
ab_glyph = "=0.2.32"
arrow = { version = "=58.4.1", default-features = false }
bytes = "=1.12.1"
csv = "=1.4.0"
directories = "=6.0.0"
eframe = { version = "=0.34.3", default-features = false, features = ["glow", "default_fonts", "x11"] }
egui_table = "=0.8.0"
encoding_rs = "=0.8.44"
flate2 = "=1.1.10"
fontdb = "=0.23.0"
futures = { version = "=0.3.34", default-features = false, features = ["std"] }
memchr = "=2.8.3"
memmap2 = "=0.9.12"
object_store = "=0.13.2"
parquet = { version = "=58.4.1", default-features = false, features = ["arrow", "snap"] }
regex = "=1.13.1"
serde = { version = "=1.0.229", features = ["derive"] }
serde_json = { version = "=1.0.154", features = ["preserve_order"] }
tokio = { version = "=1.54.1", features = ["rt"] }
url = "=2.5.8"

[dev-dependencies]
tempfile = "=3.27.0"
