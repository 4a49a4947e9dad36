//! Finalization window of a state database.
//!
//! Block state diffs that are not final yet are kept in memory as a forest of
//! overlays above the persistent store. Every change to the forest is mirrored
//! by a journal record, so that the forest can be rebuilt after a restart, and
//! finalizing a block collapses the forest onto the chosen branch.
//!
//! The window never writes. `insert` and `finalize` return a [`CommitSet`],
//! which the embedder has to write to the store as one unit before it calls
//! the window again.
//!
//! # The modules
//!
//! - [`unfinalized`]: the window, [`UnfinalizedOverlay`].
//! - [`forest`]: the window as a mathematical value, and what each operation
//!   does to it. The contracts of the window are stated over this model.
//! - [`changes`]: what the window takes in and hands out.
//! - [`hash`]: what a block hash and a key have to offer, and [`H256`].
//! - [`codec`], [`journal`]: the byte formats of the journal, each with the
//!   proof that what was written is read back.
//! - [`meta_db`]: the store that a window is rebuilt from, and one in memory.
//! - [`replay`]: what it means that a journal holds a window.
//! - [`linear_map`]: the map that the window keeps its parents and its
//!   values in.
//! - [`invariants`], [`laws`], [`chains`], [`descendants`], [`persistence`]:
//!   what the operations keep. None of it runs; it is proved.

pub mod chains;
pub mod changes;
pub mod codec;
pub mod descendants;
pub mod forest;
pub mod hash;
pub mod invariants;
pub mod journal;
pub mod laws;
pub mod linear_map;
pub mod meta_db;
pub mod persistence;
pub mod replay;
pub mod unfinalized;

pub use changes::{ChangeSet, CommitSet, Error};
pub use codec::DBValue;
pub use hash::H256;
pub use meta_db::{MemoryDb, MetaDb};
pub use unfinalized::UnfinalizedOverlay;
