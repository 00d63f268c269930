[package]
name = "viewr-core"
version = "0.1.0"
edition = "2021"
publish = false

[dependencies]
anyhow = "1"
chrono = "0.4"
fast_image_resize = "*"
jpeg-encoder = "*"
jpeg-rusturbo = "*"
libjpeg-turbo-rs = "*"
memchr = "2"
quick-xml = "0.37"
rawler = "*"
rayon = "1"
turbojpeg = "*"
zune-jpeg = "0.5"
