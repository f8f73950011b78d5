//! A small row-based storage engine: page geometry, and a free space map
//! that finds heap pages with enough room for new records.
pub mod layout;
pub mod fsm;
pub mod store;
pub mod bench;
