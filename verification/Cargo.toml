[package]
name = "orbutils"
version = "0.1.0"
edition = "2021"
publish = false

[dependencies]
shlex = "=1.3.0"
xxhash-rust = { version = "=0.8.19", features = ["const_xxh3"] }
orbclient = { version = "=0.3.55", default-features = false, features = ["std", "sdl", "image"] }
orbfont = "=0.1.12"
image = { version = "=0.25.10", default-features = false, features = ["png", "jpeg", "bmp"] }
resvg = "=0.45.1"
dirs = "=7.0.0"
xdg = "=2.5.2"
libc = "=0.2.191"
log = "=0.4.35"
lazy_static = "=1.5.1"
libredox = "=0.1.25"
redox-log = "=0.1.4"
redox_event = "=0.4.8"
freedesktop_entry_parser = "=1.3.0"
