[package]
name = "descartes"
version = "0.1.0"
edition = "2021"
publish = false

[dependencies]
gleam = "0.15"
nalgebra = "0.14"
ncollide_transformation = "=0.9.1"
webrender = "=0.70.0"
winit = "=0.30.13"
