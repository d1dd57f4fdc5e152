[package]
name = "workspace_nav"
version = "0.1.0"
edition = "2021"
publish = false

[dependencies]
i3ipc = "=0.10.1"
log = "0.4"
simple-logging = "2"
structopt = "0.3"
