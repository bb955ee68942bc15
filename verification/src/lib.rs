//! An in-memory hierarchical key-value store in the style of Xen's
//! xenstore: a node tree with per-node permissions, copy-on-write
//! change sets, snapshot-isolation transactions, watch subscriptions,
//! and a length-prefixed binary wire codec.

pub mod connection;
pub mod error;
pub mod message;
pub mod path;
pub mod store;
pub mod system;
pub mod text;
pub mod transaction;
pub mod watch;
pub mod wire;
