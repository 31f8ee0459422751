//! Account bookkeeping for a storage node in a content-addressed network.
//!
//! A node keeps two kinds of per-key records: which peers hold a replica of a
//! content item (holder accounts), and how much storage a peer has consumed
//! (usage accounts).  Peers exchange these records when group membership
//! changes, and divergent reports are reconciled into one canonical record:
//! holder sets by quorum agreement, usage counters by per-field median.

pub mod actions;
pub mod codec;
pub mod data_manager;
pub mod name;
pub mod pmid_manager;
pub mod utils;
