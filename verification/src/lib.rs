//! Seismic risk of a portfolio of assets.
//!
//! Events are counted and grouped by the location that their place names,
//! locations are ranked by a value such as the number of their events, and
//! each asset is rated by whether its location is among the highest ranked.
//! Every function states what it returns in its contract, and the laws that
//! hold between the functions are proof functions beside them.
//!
//! - `text`: whitespace, equality and lexicographic order of character
//!   sequences.
//! - `location`: the location key of a place or an address.
//! - `data`: assets and events, and which events are analysed.
//! - `grouping`: count tables and group tables of a sequence of keys.
//! - `ranking`: the ranking of a table by its values.
//! - `analysis`: counting, grouping, ranking and rating on the records.

pub mod text;
pub mod location;
pub mod data;
pub mod grouping;
pub mod ranking;
pub mod analysis;
