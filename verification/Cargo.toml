[package]
name = "editor_input"
version = "0.1.0"
edition = "2021"
publish = false

[dependencies]
ropey = { version = "=2.0.0-beta.1", default-features = false, features = ["metric_lines_lf", "metric_utf16"] }
regex = "1"
fancy-regex = "*"
aho-corasick = "1"
icu_collator = "1"
icu_locid = "1"
chrono = "0.4"
uuid = { version = "1", features = ["v4"] }
sys-locale = "0.3"
lsp-types = "*"
