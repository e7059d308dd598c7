//! Image filters for RGBA buffers: an in-place weighted blur and an in-place
//! mirror, each driven by JSON parameters, with the status codes that the
//! plugin entry points report.

pub mod blur;
pub mod mirror;
pub mod params;
pub mod rgba;
