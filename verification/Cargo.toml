[package]
name = "bt_rearm"
version = "0.1.0"
edition = "2021"
publish = false

[dependencies]
android_logger = "0.15"
jni = "0.22"
log = "0.4"
slint = { version = "1", default-features = false, features = ["compat-1-2", "std", "backend-android-activity-06"] }
