[package]
name = "poly_l10n"
version = "0.1.0"
edition = "2021"
publish = false

[dependencies]
isolang = "2"
itertools = "0.14"
unic-langid = "0.9"
windows-core = "*"
