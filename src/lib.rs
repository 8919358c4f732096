//! Border-adjacency graph construction and category ranking over an entity
//! dump.
//!
//! Records of the dump are screened (`prefilter`), classified (`classify`),
//! turned into facts (`facts`) and written into an in-memory graph store
//! (`builder`, `store`). Over the store, the category hierarchy is closed in
//! both directions (`closure`), categories are ranked by the border edges
//! they hold (`ranking`), and the subgraph of a category is exported
//! (`export`).
pub mod banned;
pub mod builder;
pub mod classify;
pub mod closure;
pub mod export;
pub mod facts;
pub mod ids;
pub mod prefilter;
pub mod ranking;
pub mod record;
pub mod store;
pub mod tables;
pub mod validity;
