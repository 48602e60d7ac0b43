//! Verified core of an intercepting proxy's project store: the methodology
//! (scenario) tree, HTTP history segmentation, content hashing and
//! compression, per-connection object quotas, and the framing protocol spoken
//! with the bootstrap proxy.

use vstd::prelude::*;

pub mod bootstrap;
pub mod command;
pub mod content;
pub mod history;
pub mod positions;
pub mod project;
pub mod quota;
pub mod rpc;
pub mod scenario;
pub mod table;
pub mod tree;

verus! {

} // verus!
