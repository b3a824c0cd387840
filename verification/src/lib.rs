//! Transactions on the store of one replica of a shared document.
//!
//! Replicas exchange updates: blocks of units that clients have written,
//! and sets of units that they have deleted. A transaction places the
//! blocks it is given as far as the store knows what they depend on,
//! deletes the units it is told to as far as they are known, keeps what
//! comes too early, and cuts blocks wherever something has to begin or end
//! in the middle of one.
//!
//! - [`block`]: identifiers, content, items and blocks, and the units that
//!   contracts speak of.
//! - [`block_store`]: state vectors, and the blocks of every client in
//!   clock order.
//! - [`id_set`]: sets of units, kept as clock ranges.
//! - [`store`]: the blocks, where each container starts, and what waits.
//! - [`update`]: batches of blocks, and placing them.
//! - [`integrate`]: placing one block, and finding the place of an item
//!   among items written at the same place at the same time.
//! - [`transaction`]: the transaction: cutting, visiting and deleting
//!   ranges of units, and writing new items.
//! - [`apply`]: applying an update with its deletions.
//! - [`deleted`]: the deleted units of a store, as a set.
//! - [`encoder`]: the bytes of an update.
//! - [`model`] and [`laws`]: what deleting does to units, and what holds
//!   of it whatever the store.
//! - [`types`]: handles to containers.

pub mod apply;
pub mod block;
pub mod block_store;
pub mod deleted;
pub mod encoder;
pub mod id_set;
pub mod integrate;
pub mod laws;
pub mod model;
pub mod store;
pub mod transaction;
pub mod types;
pub mod update;
