use vstd::prelude::*;

verus! {

/// Identity of one cluster peer. A peer is identified by the canonical
/// encoding of its public key; all this job ever does with that encoding
/// is compare it, so the identity is modelled as the integer it encodes.
/// The ordering is total and the same on every node of the cluster.
pub type NodeId = u64;

/// Identifier of one secret-sharing session (one stored document key),
/// modelled the same way: a totally ordered integer identity, unique per
/// session cluster-wide.
pub type SessionId = u64;

} // verus!
