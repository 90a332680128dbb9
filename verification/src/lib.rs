//! Route planning for an aerial vehicle over a rectangular terrain grid.
//!
//! All scalar quantities are fixed-point numbers, so that every rule of
//! the cost model and every decision of the search is exact integer
//! arithmetic. Costs, elevation, wind resistance and energy are counted in
//! thousandths of a unit, lengths in millionths of the side of a cell.
//! Where a square root has to be rounded, estimates are rounded down and
//! lengths up.

pub mod cheapest;
pub mod drone;
pub mod fixed;
pub mod frontier;
mod ledger;
pub mod level;
pub mod map_parser;
pub mod optimizer;
pub mod route;
pub mod search;
pub mod search_laws;
pub mod simulation;
mod table;
pub mod terrain;
mod text;
