[package]
name = "pitch_analyzer"
version = "0.1.0"
edition = "2021"
publish = false

[dependencies]
regex = "=1.13.1"
lindera = "=6.2.0"
serde = { version = "=1.0.229", features = ["derive"] }
serde_json = "=1.0.154"
ndarray = "=0.16.1"
rustfft = "=6.4.1"
rubato = "=0.16.2"
symphonia = { version = "=0.5.5", features = ["all"] }
ort = { version = "=2.0.0-rc.15", default-features = false, features = ["load-dynamic", "ndarray", "std"] }
