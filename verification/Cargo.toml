[package]
name = "lazydict"
version = "0.1.0"
edition = "2021"
publish = false

[dependencies]
base64 = "=0.13.1"
sha1 = "=0.6.1"
jieba-rs = "=0.6.8"
jni = "=0.14.0"
log = "=0.4.35"
lazy_static = "=1.5.1"
zip = { version = "=0.5.13", default-features = false, features = ["deflate"] }
android_logger = "0.7"
