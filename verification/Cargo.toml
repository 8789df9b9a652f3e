[package]
name = "gnome-foreground-booster"
version = "0.1.0"
edition = "2021"
publish = false

[dependencies]
dbus = { version = "0.9", features = ["vendored"] }
inotify = { version = "0.11", default-features = false }
libc = "0.2"
signal-hook = "0.3"
xattr = "1"
