[package]
name = "sonora"
version = "0.1.0"
edition = "2021"
publish = false

[dependencies]
unicode-segmentation = "1"
icu_segmenter = "2"
sys-locale = "0.3"
unic-langid = "0.9"
