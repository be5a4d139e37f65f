//! Tires by the size codes on their sidewalls.
//!
//! A metric size code such as `275/55R20` holds three numbers: the width of
//! the tire in millimeters, the height of its sidewall in percent of the
//! width, and the diameter of the wheel in inches. [`tire::Tire::new`] reads
//! them from the first three groups of digits in a text, and its contract
//! says which text gives which tire.
//!
//! - [`digits`]: digits, numbers as they are written, and their values;
//! - [`groups`]: the runs of two or more digits in a text, left to right;
//! - [`separators`]: what stands between the groups does not matter;
//! - [`tire`]: the tire and its decoding.

pub mod digits;
pub mod groups;
pub mod separators;
pub mod tire;
