[package]
name = "cpf_quilingue"
version = "0.1.0"
edition = "2021"
publish = false

[dependencies]
cpf = "=0.3.3"
eframe = { version = "0.29", default-features = false, features = ["default_fonts", "glow", "x11"] }
image = { version = "0.25", default-features = false, features = ["png"] }
