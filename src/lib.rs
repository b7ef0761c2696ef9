//! Synthetic weather-station measurements: city names read from a delimited
//! table, a bounded random sample of them, and fixed-format records
//! `<city>;<temperature>\n` with one fractional digit.

pub mod cities;
pub mod error;
pub mod format;
pub mod generate;
mod random;
