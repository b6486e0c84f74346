[package]
name = "scripture_lib"
version = "0.1.0"
edition = "2021"
publish = false

[dependencies]
icu_locale = "2"
quick-xml = "0.38"
thiserror = "2"
