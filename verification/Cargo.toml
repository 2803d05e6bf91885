[package]
name = "wmfocus"
version = "0.1.0"
edition = "2021"
publish = false

[dependencies]
anyhow = "*"
cairo-rs = { version = "*", features = ["xcb"] }
clap = { version = "*", features = ["derive"] }
css-color-parser = "*"
font-loader = "*"
i3ipc = "*"
log = "*"
pretty_env_logger = "*"
swayipc = "*"
x11rb = { version = "*", features = ["allow-unsafe-code"] }
xkeysym = "*"
