//! Polls home-energy devices, scrapes their status pages and encodes the
//! readings as line-protocol points.
pub mod number;
pub mod value;
pub mod line_protocol;
pub mod scrape;
pub mod sun600;
pub mod tasmota;
pub mod device;
pub mod backend;
pub mod config;
