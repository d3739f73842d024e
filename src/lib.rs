//! A reservation report pipeline: page-by-page extraction of booking
//! records, a column-oriented table with its transformations (earnings
//! decomposition, grouping, reference joins, commission), all verified.

pub mod number;
pub mod table;
pub mod error;
pub mod reservation;
pub mod earnings;
pub mod json;
pub mod extract;
pub mod join;
pub mod config;
pub mod sheet;
pub mod summary;
