[package]
name = "mkbib"
version = "0.1.0"
edition = "2021"
publish = false

[dependencies]
anyhow = "1"
biblatex = "*"
csv = "1"
directories = "*"
relm4 = "*"
relm4-components = "*"
reqwest = { version = "*", features = ["json"] }
serde = { version = "1", features = ["derive"] }
serde_json = "1"
strsim = "*"
tokio = { version = "1", features = ["rt-multi-thread", "macros"] }
toml = "*"
