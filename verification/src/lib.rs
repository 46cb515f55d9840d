//! Local-maximum search over sequences and rectangular grids of totally
//! ordered values, together with a greedy coin-change solver and a trie.
//!
//! Every executable function carries a contract that Verus proves.

pub mod order;
pub mod peaks;
pub mod change;
pub mod trie;
