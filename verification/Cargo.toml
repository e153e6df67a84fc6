[package]
name = "lisp_lsp"
version = "0.1.0"
edition = "2021"
publish = false

[dependencies]
ropey = "=1.6.1"
tower-lsp = "=0.20.0"
tokio = { version = "=1.54.1", features = ["io-std", "macros", "rt-multi-thread"] }

[dev-dependencies]
chumsky = "=0.9.3"
