[package]
name = "odoo_ls_features"
version = "0.1.0"
edition = "2021"
publish = false

[dependencies]
roxmltree = "=0.21.2"
lsp-types = "=0.97.0"
tracing = "=0.1.44"
ruff_python_ast = "=0.0.8"
ruff_text_size = "=0.0.8"
