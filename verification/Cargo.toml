[package]
name = "s3prog"
version = "0.1.0"
edition = "2021"
publish = false

[dependencies]
critical-section = "*"
defmt = "*"
embassy-executor = "*"
embassy-net = "*"
embassy-sync = "*"
embassy-time = "*"
embedded-hal = "*"
esp-alloc = "*"
esp-backtrace = "*"
esp-bootloader-esp-idf = "*"
esp-hal = "*"
esp-println = "*"
esp-radio = "*"
esp-rtos = "*"
picoserve = "*"
static_cell = "*"
