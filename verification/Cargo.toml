[package]
name = "bluepaper_core"
version = "0.1.0"
edition = "2021"
publish = false

[dependencies]
pulldown-cmark = { version = "=0.6.1", default-features = false }
log = "=0.4.34"
structopt = "=0.3.26"
stderrlog = "=0.4.3"
confy = "=0.3.1"
serde = { version = "=1.0.229", features = ["derive"] }
serde_json = "=1.0.154"
reqwest = { version = "=0.10.10", features = ["blocking", "json"] }
zip = { version = "=0.5.13", default-features = false }
lazy_static = "=1.5.1"
wasm-bindgen = "=0.2.129"
js-sys = "=0.3.106"
tectonic = "0.1"
