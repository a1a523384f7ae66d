[package]
name = "fwsite"
version = "0.1.0"
edition = "2021"
publish = false

[dependencies]
fs_extra = "=1.3.0"
serde = { version = "=1.0.229", features = ["derive"] }
serde_yml = "=0.0.13"
simple-minify-html = "=0.17.2"
tera = { version = "=2.4.0", features = ["glob_fs"] }
