[package]
name = "datagen"
version = "0.1.0"
edition = "2021"
publish = false

[dependencies]
ahash = "*"
csv = "*"
fastrand = "*"
hashbrown = "*"
rlimit = "*"
sysinfo = "0.29"
tinyrand = "*"
