//! Weather dashboard logic: alert selection, daily forecast grouping, radar
//! aggregation, feed-in tariff periods and the text shown for measurements.
use vstd::prelude::*;

pub mod alerts;
pub mod calendar;
pub mod forecast;
pub mod labels;
pub mod radar;
pub mod text;
pub mod urls;

verus! {

} // verus!
