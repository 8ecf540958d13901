[package]
name = "station_stats"
version = "0.1.0"
edition = "2021"
publish = false

[dependencies]
fast-float = "0.2"
fxhash = "0.2"
memchr = "2"
memmap2 = "0.9"
rayon = "1"
