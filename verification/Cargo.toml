[package]
name = "timetrack"
version = "0.1.0"
edition = "2021"
publish = false

[dependencies]
clap = "2"
directories = "*"
env_logger = "*"
log = "*"
notify = "4"
prettytable-rs = "*"
toml = "*"
