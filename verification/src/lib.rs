// An ordered map kept as a B-tree of minimum degree `D`.
//
// `btree` holds the tree itself; `node` and `key` its nodes and key records
// with the model they stand for; `search`, `insert`, `split`, `remove`,
// `merge` and `rotate` the algorithms on nodes; `sorted` and `order` the
// facts on sorted sequences and on key order that the proofs rest on;
// `laws` what holds of every well-formed tree.
pub mod access;
pub mod btree;
pub mod insert;
pub mod iterator;
pub mod key;
pub mod laws;
pub mod merge;
pub mod node;
pub mod order;
pub mod remove;
pub mod rotate;
pub mod search;
pub mod sorted;
pub mod split;
pub mod utils;
