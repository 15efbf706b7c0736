[package]
name = "jaxe"
version = "0.1.0"
edition = "2021"
publish = false

[dependencies]
anyhow = "*"
jq-rs = "*"
log = "*"
pretty_env_logger = "*"
serde_json = "*"
structopt = "*"
termcolor = "*"
