[package]
name = "av1an"
version = "0.1.0"
edition = "2021"
publish = false

[dependencies]
regex = "=1.13.1"
num_cpus = "=1.17.0"
psutil = { version = "=3.3.0", default-features = false, features = ["memory"] }
clap = "=2.34.0"
dialoguer = "=0.8.0"
indicatif = "0.17"
slog = "=2.8.2"
slog-term = "=2.9.2"
crossbeam-channel = "=0.5.17"
crossbeam-utils = "=0.8.23"
anyhow = "=1.0.104"
av-scenechange = { version = "0.5", default-features = false }
y4m = "=0.7.0"
failure = "=0.1.8"
vapoursynth = { version = "=0.3.0", features = ["vapoursynth-functions", "vsscript-functions"] }
