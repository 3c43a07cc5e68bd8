[package]
name = "smart_calendar"
version = "0.1.0"
edition = "2021"
publish = false

[dependencies]
chrono = "=0.4.45"
chrono-tz = "=0.10.4"
iso8601 = { version = "=0.6.6", features = ["chrono"] }
unicode-width = "=0.2.2"
embedded-graphics = "=0.8.2"
epd-waveshare = "=0.6.0"
u8g2-fonts = "=0.8.0"
