[package]
name = "yahallo"
version = "0.1.0"
edition = "2021"
publish = false

[dependencies]
anyhow = "1"
clap = { version = "4", features = ["derive"] }
ctor = "*"
dbus = "*"
dbus-crossroads = "*"
dlib-face-recognition = "*"
humantime = "2"
image = "*"
log = "*"
pamsm = "*"
pretty_env_logger = "*"
rscam = "*"
syslog = "*"
thiserror = "*"
