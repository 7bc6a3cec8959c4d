//! Trade-route search over a graph of locations with two-sided order books.
//!
//! - `graph`: locations and risk-weighted connections.
//! - `book`: grouping, sorting and pruning of each commodity's orders.
//! - `pathfinder`: cheapest risk-compliant paths between locations.
//! - `search`: best-first, capital- and capacity-constrained route search.
//! - `route`: routes with cached profit, ranking and a text report.
//! - `processor`: the search's inputs for one run, and preprocessing as a whole.
//! - `settings`, `types`, `errors`, `urls`: configuration, records, failures and links.

use vstd::prelude::*;

pub mod book;
pub mod errors;
pub mod graph;
pub mod pathfinder;
pub mod processor;
pub mod route;
pub mod search;
pub mod settings;
pub mod types;
pub mod urls;

verus! {

} // verus!
