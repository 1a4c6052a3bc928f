[package]
name = "wherego"
version = "0.1.0"
edition = "2021"
publish = false

[dependencies]
anyhow = "=1.0.104"
clap = { version = "=4.6.7", features = ["derive"] }
deadpool-postgres = "=0.12.1"
log = "=0.4.35"
simple_logger = "=4.3.3"
tokio = { version = "=1.54.1", features = ["macros", "rt-multi-thread"] }
warp = { version = "=0.3.7", default-features = false }
serde = { version = "=1.0.229", features = ["derive"] }
yew = { version = "=0.21.0", features = ["csr"] }
yewdux = "0.11"
stylist = { version = "0.13", features = ["yew_integration"] }
gloo-console = "=0.2.3"
wasm-bindgen = "=0.2.130"
web-sys = { version = "=0.3.107", features = ["HtmlInputElement", "HtmlTextAreaElement", "Window"] }
reqwest = { version = "=0.11.27", default-features = false, features = ["json"] }
