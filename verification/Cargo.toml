[package]
name = "distil"
version = "0.1.0"
edition = "2021"
publish = false

[dependencies]
color_quant = "=1.0.1"
delta_e = "=0.1.0"
lab = "0.4"
image = { version = "=0.19.0", default-features = false, features = ["jpeg", "png_codec"] }
quick-error = "=1.2.3"
