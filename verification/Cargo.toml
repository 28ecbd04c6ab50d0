[package]
name = "print_typeset"
version = "0.1.0"
edition = "2021"
publish = false

[dependencies]
tex2typst-rs = "=0.4.1"
typst = "=0.15.1"
typst-layout = "=0.15.1"
typst-as-lib = { version = "=0.17.0", features = ["typst-kit-fonts", "typst-kit-embed-fonts"] }
typst-pdf = "=0.15.1"
ratex-parser = "=0.1.15"
ratex-layout = "=0.1.15"
ratex-svg = { version = "=0.1.15", features = ["embed-fonts"] }
ratex-types = "=0.1.15"
pulldown-cmark = "=0.13.6"
scraper = "=0.29.0"
fontdb = "=0.23.0"
log = "=0.4.35"
chrono = "0.4"
