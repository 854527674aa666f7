[package]
name = "nu_plugin_jj"
version = "0.1.0"
edition = "2021"
rust-version = "1.95"
publish = false

[dependencies]
jj-lib = "=0.37.0"
# Not used by this crate's own code: jj-lib's git backend needs kstring, and
# this line holds it at a patch that builds with the rust-version above.
kstring = "=2.0.2"
nu-plugin = { version = "=0.110.0", default-features = false }
nu-protocol = "=0.110.0"
thiserror = "=2.0.21"
