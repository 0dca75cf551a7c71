[package]
name = "blong"
version = "0.1.0"
edition = "2021"
publish = false

[dependencies]
cortex-m = "0.7"
cortex-m-rtic = "1.1"
defmt = "0.3"
defmt-rtt = "0.4"
nrf52840-hal = "0.16"
panic-probe = { version = "0.3", features = ["print-defmt"] }
