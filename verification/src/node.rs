//! Node identifiers and the mathematical model of one reactive node.

use vstd::prelude::*;
use crate::expr::Expr;

verus! {

/// A stable handle into a runtime's node arena: an index plus a generation
/// tag.  A `NodeId` addresses a node only while the slot's generation matches;
/// disposing a node bumps the slot's generation, so a stale id can never
/// silently address a newer node that reuses the slot.
#[derive(Clone, Copy, PartialEq, Eq, Structural, Debug)]
pub struct NodeId {
    pub index: usize,
    pub generation: u64,
}

/// Identifies one runtime instance, so that a handle can be checked against
/// the runtime it is used with.
#[derive(Clone, Copy, PartialEq, Eq, Structural, Debug)]
pub struct RuntimeId {
    pub id: u64,
}

/// What a node is: a leaf value, a cached derived value, or a side effect.
#[derive(Clone, Copy, PartialEq, Eq, Structural, Debug)]
pub enum NodeKind {
    Signal,
    Memo,
    Effect,
}

/// The model of one arena slot: everything the propagation algorithm reads
/// or writes about a node.  `sources` are the nodes this node currently
/// depends on; `subs` are the nodes that depend on it; `runs` counts how many
/// times the node's computation has been invoked.
#[verifier::ext_equal]
pub ghost struct NodeV {
    pub live: bool,
    pub generation: u64,
    pub kind: NodeKind,
    pub value: Option<i64>,
    pub comp: Option<Expr>,
    pub sources: Seq<usize>,
    pub subs: Seq<usize>,
    pub runs: u64,
}

} // verus!
