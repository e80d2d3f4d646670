//! Shortest climbs over a terrain grid: the grid and its climbing rule, the
//! walks that the rule allows, and the search for a shortest one.

pub mod grid;
pub mod route;
pub mod walker;
