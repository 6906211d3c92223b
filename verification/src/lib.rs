//! Fact-gathering orchestration core for a distributed infrastructure-checking
//! agent: filters incoming gathering requests down to the local agent, groups
//! the matching fact requests by their target gatherer, and resolves versioned
//! gatherer names against an immutable registry.

use vstd::prelude::*;

pub mod events;
pub mod gatherers;

verus! {

} // verus!
