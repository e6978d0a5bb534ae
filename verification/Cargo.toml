[package]
name = "rs_paint"
version = "0.1.0"
edition = "2021"
publish = false

[dependencies]
eframe = "0.31"
egui = "0.31"
