//! Inflation-adjusted income: period handling, statistical data extraction,
//! series resolution and cache decisions, with their contracts.

pub mod text;
pub mod period;
pub mod xml;
pub mod number;
pub mod extract;
pub mod json;
pub mod catalog;
pub mod series;
pub mod cache;
