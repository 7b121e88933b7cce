use vstd::prelude::*;

pub mod args;
pub mod base_path;
pub mod clock;
pub mod event;
pub mod manager;
pub mod path_syntax;
pub mod path_trie;
pub mod snapshotter;
pub mod state_trie;
pub mod ws;

verus! {
} // verus!
