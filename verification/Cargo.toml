[package]
name = "crazydog"
version = "0.1.0"
edition = "2021"
publish = false

[dependencies]
anyhow = "1"
env_logger = "0.11"
log = "0.4"
rclrs = "0.7"
termios = "0.3"
