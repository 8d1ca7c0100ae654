[package]
name = "vibrato"
version = "0.1.0"
edition = "2021"
publish = false

[dependencies]
crawdad = "=0.4.1"
csv-core = "=0.1.13"
hashbrown = "=0.14.5"
regex = "=1.13.1"
rucrf = "*"
