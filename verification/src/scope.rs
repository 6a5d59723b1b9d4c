//! Disposal boundaries.
//!
//! A scope owns the nodes created while it was current, together with
//! cleanup actions registered in it; a scope tree mirrors structural
//! ownership.  Disposing a scope disposes every node it owns, runs its
//! cleanups in registration order — each exactly once: the list is
//! consumed — and then disposes the scopes nested inside it, parents
//! before children.  Node handles stay plain copyable values afterwards:
//! every operation on a disposed node detects the stale handle through
//! its generation instead of touching freed state.

use vstd::prelude::*;
use crate::node::NodeId;
use crate::runtime::Runtime;
use crate::stream::close_sender;

verus! {

/// Names one scope of a scope tree.
#[derive(Clone, Copy, PartialEq, Eq, Structural, Debug)]
pub struct ScopeId {
    pub index: usize,
}

/// The cleanup actions a scope can run when it is disposed.  Closing a
/// stream's channel is what the stream bridge registers, so that the
/// stream ends when its owning scope does.
pub enum Cleanup {
    CloseChannel(futures::channel::mpsc::UnboundedSender<i64>),
}

/// The channel a cleanup action closes, under the channel-identity names
/// of the stream module.
pub open spec fn cleanup_channel(c: Cleanup) -> int {
    match c {
        Cleanup::CloseChannel(tx) => crate::stream::sender_channel(tx),
    }
}

struct ScopeRec {
    parent: Option<usize>,
    nodes: Vec<NodeId>,
    cleanups: Vec<Cleanup>,
}

/// Scope `i` lies in the subtree rooted at `sc` of the parent forest
/// `ps`: it is `sc` itself, or its parent (always created earlier, so at
/// a smaller index) does.
pub open spec fn descends(ps: Seq<Option<usize>>, i: int, sc: int) -> bool
    decreases i,
    when 0 <= i
{
    if i == sc {
        true
    } else if 0 <= i < ps.len() {
        ps[i] matches Some(p) && (p as int) < i && descends(ps, p as int, sc)
    } else {
        false
    }
}

/// No scope below the root of a subtree lies in it: parents always have
/// smaller indexes.
proof fn lemma_descends_low(ps: Seq<Option<usize>>, i: int, sc: int)
    requires
        0 <= i < sc,
    ensures
        !descends(ps, i, sc),
    decreases i,
{
    if 0 <= i < ps.len() && ps[i] is Some && (ps[i]->Some_0 as int) < i {
        lemma_descends_low(ps, ps[i]->Some_0 as int, sc);
    }
}

/// The scope tree of one runtime.
pub struct Scopes {
    recs: Vec<ScopeRec>,
}

impl Scopes {
    pub closed spec fn count(&self) -> nat {
        self.recs@.len()
    }

    /// The parent of each scope, in creation order.
    pub closed spec fn parents(&self) -> Seq<Option<usize>> {
        Seq::new(self.recs@.len(), |i: int| self.recs@[i].parent)
    }

    /// The nodes a scope directly owns.
    pub closed spec fn owned(&self, sc: ScopeId) -> Seq<NodeId> {
        if (sc.index as int) < self.recs@.len() {
            self.recs@[sc.index as int].nodes@
        } else {
            Seq::empty()
        }
    }

    /// The cleanup actions registered in a scope and not yet run, in
    /// registration order.
    pub closed spec fn cleanups(&self, sc: ScopeId) -> Seq<Cleanup> {
        if (sc.index as int) < self.recs@.len() {
            self.recs@[sc.index as int].cleanups@
        } else {
            Seq::empty()
        }
    }

    pub fn new() -> (s: Scopes)
        ensures
            s.count() == 0,
    {
        Scopes { recs: Vec::new() }
    }

    /// Opens a new scope, nested in `parent` when one is given.
    pub fn create_scope(&mut self, parent: Option<ScopeId>) -> (sc: ScopeId)
        requires
            old(self).count() < usize::MAX,
        ensures
            final(self).count() == old(self).count() + 1,
            (sc.index as nat) == old(self).count(),
            final(self).owned(sc).len() == 0,
            final(self).cleanups(sc).len() == 0,
            final(self).parents() == old(self).parents().push(
                match parent {
                    Some(p) => Some(p.index),
                    None => None,
                },
            ),
            forall|o: ScopeId|
                (o.index as nat) < old(self).count() ==> final(self).owned(o) == old(self).owned(o)
                    && final(self).cleanups(o) == old(self).cleanups(o),
    {
        let idx = self.recs.len();
        let p = match parent {
            Some(s) => Some(s.index),
            None => None,
        };
        self.recs.push(ScopeRec { parent: p, nodes: Vec::new(), cleanups: Vec::new() });
        proof {
            assert(self.parents() =~= old(self).parents().push(p));
        }
        ScopeId { index: idx }
    }

    /// Registers a node as owned by `sc`, so that disposing the scope
    /// disposes the node.
    pub fn adopt(&mut self, sc: ScopeId, id: NodeId)
        requires
            (sc.index as nat) < old(self).count(),
        ensures
            final(self).count() == old(self).count(),
            final(self).owned(sc) == old(self).owned(sc).push(id),
            final(self).parents() == old(self).parents(),
            forall|o: ScopeId| o.index != sc.index ==> final(self).owned(o) == old(self).owned(o),
            forall|o: ScopeId| final(self).cleanups(o) == old(self).cleanups(o),
    {
        self.recs[sc.index].nodes.push(id);
        proof {
            assert(self.parents() =~= old(self).parents());
        }
    }

    /// Registers a cleanup action to run when `sc` is disposed, after the
    /// ones registered before it.
    pub fn on_cleanup(&mut self, sc: ScopeId, c: Cleanup)
        requires
            (sc.index as nat) < old(self).count(),
        ensures
            final(self).count() == old(self).count(),
            final(self).cleanups(sc) == old(self).cleanups(sc).push(c),
            final(self).parents() == old(self).parents(),
            forall|o: ScopeId| final(self).owned(o) == old(self).owned(o),
            forall|o: ScopeId|
                o.index != sc.index ==> final(self).cleanups(o) == old(self).cleanups(o),
    {
        self.recs[sc.index].cleanups.push(c);
        proof {
            assert(self.parents() =~= old(self).parents());
        }
    }

    /// Disposes one scope's own contents: every owned node, then every
    /// cleanup in registration order; the cleanup list is consumed, so
    /// each action runs exactly once even if the scope is visited again.
    fn dispose_one(&mut self, rt: &mut Runtime, i: usize)
        requires
            old(rt).inv(),
            (i as nat) < old(self).count(),
        ensures
            final(rt).inv(),
            final(self).count() == old(self).count(),
            final(self).parents() == old(self).parents(),
            forall|o: ScopeId| final(self).owned(o) == old(self).owned(o),
            final(self).cleanups(ScopeId { index: i }).len() == 0,
            forall|o: ScopeId|
                o.index != i ==> final(self).cleanups(o) == old(self).cleanups(o),
            forall|k: int|
                0 <= k < old(self).owned(ScopeId { index: i }).len() ==> !final(rt).valid_id(
                    old(self).owned(ScopeId { index: i })[k],
                ),
            forall|o: NodeId| !old(rt).valid_id(o) ==> !final(rt).valid_id(o),
            forall|o: NodeId|
                old(rt).valid_id(o) && (forall|k: int|
                    0 <= k < old(self).owned(ScopeId { index: i }).len()
                        ==> (#[trigger] old(self).owned(ScopeId { index: i })[k]).index
                        != o.index) ==> #[trigger] final(rt).valid_id(o),
            final(rt).id_spec() == old(rt).id_spec(),
    {
        let ghost sc = ScopeId { index: i };
        let n = self.recs[i].nodes.len();
        let mut k: usize = 0;
        while k < n
            invariant
                rt.inv(),
                (i as nat) < self.count(),
                self.count() == old(self).count(),
                self.parents() == old(self).parents(),
                n == self.owned(sc).len(),
                self.owned(sc) == old(self).owned(sc),
                forall|o: ScopeId| self.owned(o) == old(self).owned(o),
                forall|o: ScopeId| self.cleanups(o) == old(self).cleanups(o),
                sc == (ScopeId { index: i }),
                k <= n,
                forall|m: int| 0 <= m < k ==> !rt.valid_id(self.owned(sc)[m]),
                forall|o: NodeId| !old(rt).valid_id(o) ==> !rt.valid_id(o),
                forall|o: NodeId|
                    old(rt).valid_id(o) && (forall|m: int|
                        0 <= m < k ==> (#[trigger] self.owned(sc)[m]).index != o.index)
                        ==> #[trigger] rt.valid_id(o),
                rt.id_spec() == old(rt).id_spec(),
            decreases n - k,
        {
            let id = self.recs[i].nodes[k];
            rt.dispose_node(id);
            k += 1;
        }
        let m = self.recs[i].cleanups.len();
        let mut t: usize = 0;
        while t < m
            invariant
                rt.inv(),
                (i as nat) < self.count(),
                self.count() == old(self).count(),
                self.parents() == old(self).parents(),
                self.owned(sc) == old(self).owned(sc),
                forall|o: ScopeId| self.owned(o) == old(self).owned(o),
                forall|o: ScopeId| self.cleanups(o) == old(self).cleanups(o),
                sc == (ScopeId { index: i }),
                t <= m,
                m == self.recs@[i as int].cleanups@.len(),
                forall|k2: int| 0 <= k2 < self.owned(sc).len() ==> !rt.valid_id(self.owned(sc)[k2]),
                forall|o: NodeId| !old(rt).valid_id(o) ==> !rt.valid_id(o),
                forall|o: NodeId|
                    old(rt).valid_id(o) && (forall|m2: int|
                        0 <= m2 < self.owned(sc).len() ==> (#[trigger] self.owned(
                            sc,
                        )[m2]).index != o.index) ==> #[trigger] rt.valid_id(o),
                rt.id_spec() == old(rt).id_spec(),
            decreases m - t,
        {
            match &self.recs[i].cleanups[t] {
                Cleanup::CloseChannel(tx) => close_sender(tx),
            }
            t += 1;
        }
        self.recs[i].cleanups = Vec::new();
        proof {
            assert(self.parents() =~= old(self).parents());
        }
    }

    /// Disposes a scope: its own nodes and cleanups first, then every
    /// scope of the subtree nested inside it, parents before children.
    /// Afterwards every node owned by any scope of the subtree is stale
    /// and every cleanup of the subtree has run.
    pub fn dispose_scope(&mut self, rt: &mut Runtime, sc: ScopeId)
        requires
            old(rt).inv(),
            (sc.index as nat) < old(self).count(),
        ensures
            final(rt).inv(),
            final(self).count() == old(self).count(),
            final(self).parents() == old(self).parents(),
            forall|o: ScopeId| final(self).owned(o) == old(self).owned(o),
            forall|i: int|
                0 <= i < old(self).count() && #[trigger] descends(
                    old(self).parents(),
                    i,
                    sc.index as int,
                ) ==> (forall|k: int|
                    0 <= k < old(self).owned(ScopeId { index: i as usize }).len()
                        ==> !final(rt).valid_id(
                        #[trigger] old(self).owned(ScopeId { index: i as usize })[k],
                    )) && final(self).cleanups(ScopeId { index: i as usize }).len() == 0,
            forall|o: NodeId| !old(rt).valid_id(o) ==> !final(rt).valid_id(o),
            forall|o: ScopeId|
                !descends(old(self).parents(), o.index as int, sc.index as int)
                    ==> #[trigger] final(self).cleanups(o) == old(self).cleanups(o),
            forall|o: NodeId|
                old(rt).valid_id(o) && (forall|i: int, k: int|
                    0 <= i < old(self).count() && descends(
                        old(self).parents(),
                        i,
                        sc.index as int,
                    ) && 0 <= k < old(self).owned(ScopeId { index: i as usize }).len()
                        ==> (#[trigger] old(self).owned(ScopeId { index: i as usize })[k]).index
                        != o.index) ==> #[trigger] final(rt).valid_id(o),
            final(rt).id_spec() == old(rt).id_spec(),
    {
        let ghost ps = self.parents();
        let ghost sci = sc.index as int;
        let n = self.recs.len();
        let mut marked: Vec<bool> = Vec::new();
        while marked.len() < n
            invariant
                marked@.len() <= n,
                forall|m: int| 0 <= m < marked@.len() ==> !marked@[m],
            decreases n - marked@.len(),
        {
            marked.push(false);
        }
        marked.set(sc.index, true);
        self.dispose_one(rt, sc.index);
        proof {
            assert forall|j: int| 0 <= j < sci implies !descends(ps, j, sci) by {
                lemma_descends_low(ps, j, sci);
            }
            assert forall|o: NodeId|
                old(rt).valid_id(o) && (forall|j: int, k: int|
                    0 <= j < marked@.len() && marked@[j] && 0 <= k < old(self).owned(
                        ScopeId { index: j as usize },
                    ).len() ==> (#[trigger] old(self).owned(ScopeId { index: j as usize })[k]).index
                        != o.index) implies #[trigger] rt.valid_id(o) by {
                assert(marked@[sci]);
                assert((sci as usize) as int == sci);
                assert(forall|k: int|
                    0 <= k < old(self).owned(sc).len() ==> (#[trigger] old(self).owned(sc)[k]).index
                        != o.index);
            }
        }
        let mut i: usize = sc.index + 1;
        while i < n
            invariant
                rt.inv(),
                ps == old(self).parents(),
                self.parents() == ps,
                sci == sc.index as int,
                sci < i,
                self.count() == old(self).count(),
                n == self.count(),
                marked@.len() == n,
                i <= n,
                forall|o: ScopeId| self.owned(o) == old(self).owned(o),
                forall|j: int|
                    0 <= j < n ==> (marked@[j] == (descends(ps, j, sci) && (j < i || j == sci))),
                forall|j: int|
                    0 <= j < n && marked@[j] ==> (forall|k: int|
                        0 <= k < old(self).owned(ScopeId { index: j as usize }).len()
                            ==> !rt.valid_id(
                            #[trigger] old(self).owned(ScopeId { index: j as usize })[k],
                        )) && self.cleanups(ScopeId { index: j as usize }).len() == 0,
                forall|j: int|
                    0 <= j < n && !marked@[j] ==> self.cleanups(ScopeId { index: j as usize })
                        == old(self).cleanups(ScopeId { index: j as usize }),
                forall|o: NodeId| !old(rt).valid_id(o) ==> !rt.valid_id(o),
                forall|o: NodeId|
                    old(rt).valid_id(o) && (forall|j: int, k: int|
                        0 <= j < n && marked@[j] && 0 <= k < old(self).owned(
                            ScopeId { index: j as usize },
                        ).len() ==> (#[trigger] old(self).owned(
                            ScopeId { index: j as usize },
                        )[k]).index != o.index) ==> #[trigger] rt.valid_id(o),
                rt.id_spec() == old(rt).id_spec(),
            decreases n - i,
        {
            let mut goes = false;
            match self.recs[i].parent {
                Some(p) => {
                    if p < i && marked[p] {
                        goes = true;
                    }
                },
                None => {},
            }
            proof {
                assert(ps[i as int] == self.recs@[i as int].parent);
                assert(goes == descends(ps, i as int, sci));
            }
            if goes {
                let ghost marked_b = marked@;
                let ghost rt_b = *rt;
                marked.set(i, true);
                self.dispose_one(rt, i);
                proof {
                    assert forall|o: NodeId|
                        old(rt).valid_id(o) && (forall|j: int, k: int|
                            0 <= j < n && marked@[j] && 0 <= k < old(self).owned(
                                ScopeId { index: j as usize },
                            ).len() ==> (#[trigger] old(self).owned(
                                ScopeId { index: j as usize },
                            )[k]).index != o.index) implies #[trigger] rt.valid_id(o) by {
                        assert forall|j: int, k: int|
                            0 <= j < n && marked_b[j] && 0 <= k < old(self).owned(
                                ScopeId { index: j as usize },
                            ).len() implies (#[trigger] old(self).owned(
                                ScopeId { index: j as usize },
                            )[k]).index != o.index by {
                            assert(marked@[j]);
                        }
                        assert(rt_b.valid_id(o));
                        assert(marked@[i as int]);
                        assert((i as int) as usize == i);
                        assert(forall|k: int|
                            0 <= k < old(self).owned(ScopeId { index: i }).len() ==> (
                            #[trigger] old(self).owned(ScopeId { index: i })[k]).index != o.index);
                    }
                }
            }
            i += 1;
        }
    }
}

} // verus!
