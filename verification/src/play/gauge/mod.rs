//! Gauge kinds and gauge property families.

pub mod gauge_property;
