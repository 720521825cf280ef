[package]
name = "fs-sync"
version = "0.1.0"
edition = "2021"
publish = false

[dependencies]
failure = "0.1"
ignore = "0.4"
log = "0.4"
loggerv = "0.7"
notify = "4"
ssh2 = "*"
structopt = "0.3"
structopt-derive = "*"
