[package]
name = "threedee"
version = "0.1.0"
edition = "2021"
publish = false

[dependencies]
pdqsort = "=1.0.3"
dotenv = "=0.15.0"
sdl2 = "*"
