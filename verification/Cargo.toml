[package]
name = "replay_stats_rl"
version = "0.1.0"
edition = "2021"
publish = false

[dependencies]
boxcars = "*"
chrono = "*"
dotenv = "*"
plotters = "*"
