use vstd::prelude::*;

pub mod text;
pub mod time;
pub mod key;
pub mod element;
pub mod rht;
pub mod rht_pq_map;
pub mod llrb;
pub mod splay;
pub mod client;

verus! {

} // verus!
