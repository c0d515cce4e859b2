//! An in-memory ordered map backed by a B-tree.
//!
//! Each tree node holds a small sorted batch of key-value pairs, so a lookup
//! or an insertion touches only a logarithmic number of nodes.  The node
//! engine lives in `node`, the descent logic in `search`, and the public
//! map facade in `map`.

pub mod node;
pub mod search;
pub mod map;

pub use map::BTreeMap;
