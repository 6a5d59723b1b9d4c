//! The computation language of derived nodes.
//!
//! A memo's or effect's derivation is a closed expression over the graph:
//! it reads other nodes (tracked or untracked), may use its own previous
//! value, and combines what it read.  Evaluating an expression while a node
//! re-runs is what discovers dependencies: every tracked read records an
//! edge from the read node to the running node.

use vstd::prelude::*;
use crate::node::{NodeId, NodeV};

verus! {

/// A derivation: the computation attached to a memo or an effect.
///
/// `Read` is a tracked read and subscribes the running node to the read
/// node; `ReadUntracked` reads the same value without recording an edge.
/// `PrevOr(d)` is the node's own previous cached value, or `d` on the very
/// first run.  Addition wraps on overflow.
pub enum Expr {
    Const(i64),
    Read(NodeId),
    ReadUntracked(NodeId),
    PrevOr(i64),
    Add(Box<Expr>, Box<Expr>),
    Min(Box<Expr>, Box<Expr>),
}

impl Clone for Expr {
    fn clone(&self) -> (r: Self)
        ensures
            r == self,
        decreases self,
    {
        match self {
            Expr::Const(c) => Expr::Const(*c),
            Expr::Read(id) => Expr::Read(*id),
            Expr::ReadUntracked(id) => Expr::ReadUntracked(*id),
            Expr::PrevOr(d) => Expr::PrevOr(*d),
            Expr::Add(l, r) => Expr::Add(Box::new((**l).clone()), Box::new((**r).clone())),
            Expr::Min(l, r) => Expr::Min(Box::new((**l).clone()), Box::new((**r).clone())),
        }
    }
}

/// The value stored at slot `i`, or 0 where no value is stored.  Every live
/// node holds a value once created, so the default is never observable
/// through the public reads.
pub open spec fn val_at(ns: Seq<NodeV>, i: usize) -> i64 {
    if (i as int) < ns.len() {
        match ns[i as int].value {
            Some(x) => x,
            None => 0,
        }
    } else {
        0
    }
}

/// What evaluating `e` returns, given the nodes' current values and the
/// running node's previous value.
pub open spec fn eval_val(e: Expr, ns: Seq<NodeV>, prev: Option<i64>) -> i64
    decreases e,
{
    match e {
        Expr::Const(c) => c,
        Expr::Read(id) => val_at(ns, id.index),
        Expr::ReadUntracked(id) => val_at(ns, id.index),
        Expr::PrevOr(d) => match prev {
            Some(p) => p,
            None => d,
        },
        Expr::Add(l, r) => eval_val(*l, ns, prev).wrapping_add(eval_val(*r, ns, prev)),
        Expr::Min(l, r) => {
            let a = eval_val(*l, ns, prev);
            let b = eval_val(*r, ns, prev);
            if a <= b {
                a
            } else {
                b
            }
        },
    }
}

/// The indexes `e` reads through the tracked path, in evaluation order.
/// These are exactly the nodes the running node subscribes to.
pub open spec fn treads(e: Expr) -> Seq<usize>
    decreases e,
{
    match e {
        Expr::Const(_) => Seq::empty(),
        Expr::Read(id) => seq![id.index],
        Expr::ReadUntracked(_) => Seq::empty(),
        Expr::PrevOr(_) => Seq::empty(),
        Expr::Add(l, r) => treads(*l) + treads(*r),
        Expr::Min(l, r) => treads(*l) + treads(*r),
    }
}

/// The indexes `e` reads at all, tracked or untracked: the nodes whose
/// values the result of `e` can depend on.
pub open spec fn rds(e: Expr) -> Seq<usize>
    decreases e,
{
    match e {
        Expr::Const(_) => Seq::empty(),
        Expr::Read(id) => seq![id.index],
        Expr::ReadUntracked(id) => seq![id.index],
        Expr::PrevOr(_) => Seq::empty(),
        Expr::Add(l, r) => rds(*l) + rds(*r),
        Expr::Min(l, r) => rds(*l) + rds(*r),
    }
}

/// Every node `e` mentions is live and addressed under its current
/// generation.  A computation whose reads have gone stale is skipped rather
/// than run.
pub open spec fn comp_ok(ns: Seq<NodeV>, e: Expr) -> bool
    decreases e,
{
    match e {
        Expr::Const(_) => true,
        Expr::Read(id) => (id.index as int) < ns.len() && ns[id.index as int].live
            && ns[id.index as int].generation == id.generation,
        Expr::ReadUntracked(id) => (id.index as int) < ns.len() && ns[id.index as int].live
            && ns[id.index as int].generation == id.generation,
        Expr::PrevOr(_) => true,
        Expr::Add(l, r) => comp_ok(ns, *l) && comp_ok(ns, *r),
        Expr::Min(l, r) => comp_ok(ns, *l) && comp_ok(ns, *r),
    }
}

} // verus!
