//! Inventory containment hierarchy: Group, Property, Zone (nested), Item.
//!
//! The library resolves flat parent-pointer records into ancestor chains and
//! visible trees, plans cascading deletions, and filters searches and
//! listings by visibility. It also holds the board logic of a small
//! four-in-a-row game.

pub mod ancestors;
pub mod auth;
pub mod cascade;
pub mod connect_four;
pub mod ids;
pub mod listing;
pub mod membership;
pub mod model;
pub mod search;
pub mod select;
pub mod tree;
pub mod visibility;
