//! Aggregation of browser history visits into per-domain totals and an
//! hourly activity histogram, with ranked and filterable views.
use vstd::prelude::*;

pub mod config;
pub mod domain;
pub mod laws;
pub mod provider;
pub mod tracker;

verus! {

} // verus!
