//! Memos: efficient derived reactive values.
//!
//! Unlike a plain derived computation, a memo comes with two guarantees:
//! it re-runs *once* per upstream change, no matter how often its value is
//! read, and it notifies its own subscribers only when the recomputed
//! value differs from the previous one.  The derivation runs eagerly on
//! creation, so the cached value is available from the start; it receives
//! the memo's previous value (absent only on that first run) through
//! `Expr::PrevOr`.

use vstd::prelude::*;
use crate::expr::{comp_ok, eval_val, treads, Expr};
use crate::model::{core_same, dispose_step};
use crate::node::{NodeId, NodeKind, RuntimeId};
use crate::runtime::Runtime;
use crate::scope::{Cleanup, ScopeId, Scopes};
use crate::stream::{clone_sender, new_channel};

verus! {

/// An efficient derived reactive value: a plain copyable handle to a memo
/// node.  The handle stays a value after the node is disposed; every
/// operation revalidates it, and the `try_` forms report the stale handle
/// instead of failing.
#[derive(Clone, Copy, PartialEq, Eq, Structural, Debug)]
pub struct Memo {
    pub runtime: RuntimeId,
    pub id: NodeId,
}

/// Creates a memo owned by `sc` whose value is `f` over the graph, and
/// computes it immediately: right after creation the cached value equals
/// one evaluation of `f` with no previous value, and the memo subscribes
/// to exactly the nodes `f` reads tracked.
pub fn create_memo(rt: &mut Runtime, sx: &mut Scopes, sc: ScopeId, f: Expr) -> (m: Memo)
    requires
        old(rt).inv(),
        old(rt).nv().len() < usize::MAX,
        comp_ok(old(rt).nv(), f),
        (sc.index as nat) < old(sx).count(),
    ensures
        final(rt).inv(),
        m.runtime == final(rt).id_spec(),
        final(rt).valid_id(m.id),
        final(rt).nv()[m.id.index as int].kind == NodeKind::Memo,
        final(rt).nv()[m.id.index as int].comp == Some(f),
        final(rt).nv()[m.id.index as int].value == Some(eval_val(f, old(rt).nv(), None::<i64>)),
        final(rt).nv()[m.id.index as int].runs == 1,
        final(rt).nv()[m.id.index as int].subs.len() == 0,
        forall|y: usize|
            #[trigger] final(rt).nv()[m.id.index as int].sources.contains(y) <==> treads(
                f,
            ).contains(y) && y != m.id.index,
        forall|j: int|
            0 <= j < old(rt).nv().len() && j != m.id.index as int ==> core_same(
                #[trigger] final(rt).nv()[j],
                old(rt).nv()[j],
            ),
        forall|j: int, y: usize|
            0 <= j < old(rt).nv().len() && j != m.id.index as int
                && (#[trigger] final(rt).nv()[j].subs.contains(y)) ==> old(
                rt,
            ).nv()[j].subs.contains(y) || y == m.id.index,
        forall|j: int, y: usize|
            0 <= j < old(rt).nv().len() && j != m.id.index as int && old(
                rt,
            ).nv()[j].subs.contains(y) ==> (#[trigger] final(rt).nv()[j].subs.contains(y)),
        forall|j: int|
            0 <= j < final(rt).nv().len() && j != m.id.index as int
                ==> ((#[trigger] final(rt).nv()[j].subs.contains(m.id.index)) <==> treads(
                f,
            ).contains(j as usize)),
        old(rt).nv().len() <= final(rt).nv().len() <= old(rt).nv().len() + 1,
        (m.id.index as int) < old(rt).nv().len() ==> !old(rt).nv()[m.id.index as int].live,
        final(rt).emit_log() == old(rt).emit_log(),
        forall|o: NodeId| old(rt).valid_id(o) ==> final(rt).valid_id(o) && o.index != m.id.index,
        final(rt).id_spec() == old(rt).id_spec(),
        final(sx).count() == old(sx).count(),
        final(sx).owned(sc) == old(sx).owned(sc).push(m.id),
{
    let id = rt.create_derived(NodeKind::Memo, f, None);
    sx.adopt(sc, id);
    Memo { runtime: rt.id(), id }
}

impl Memo {
    /// The handle addresses a live node of this runtime.
    pub open spec fn is_alive(self, rt: &Runtime) -> bool {
        rt.id_spec() == self.runtime && rt.valid_id(self.id)
    }

    /// The cached value in the model; guaranteed present once created.
    pub open spec fn value_spec(self, rt: &Runtime) -> Option<i64> {
        rt.nv()[self.id.index as int].value
    }

    pub fn node_id(&self) -> (r: NodeId)
        ensures
            r == self.id,
    {
        self.id
    }

    /// Clones the current cached value, guaranteed fresh: recomputation
    /// already happened during the most recent write, never during a read.
    /// Reading a disposed memo is a fatal programming error, excluded by
    /// contract; `try_get` is the recoverable form.
    pub fn get(&self, rt: &Runtime) -> (r: i64)
        requires
            rt.inv(),
            self.is_alive(rt),
            self.value_spec(rt) is Some,
        ensures
            Some(r) == self.value_spec(rt),
    {
        rt.read(self.id)
    }

    /// As `get`, without registering any dependency: inside a running
    /// computation an untracked read would not subscribe the reader.
    pub fn get_untracked(&self, rt: &Runtime) -> (r: i64)
        requires
            rt.inv(),
            self.is_alive(rt),
            self.value_spec(rt) is Some,
        ensures
            Some(r) == self.value_spec(rt),
    {
        rt.read(self.id)
    }

    /// The cached value, or nothing when the memo was disposed or belongs
    /// to another runtime: the recoverable read.
    pub fn try_get(&self, rt: &Runtime) -> (r: Option<i64>)
        requires
            rt.inv(),
        ensures
            r == (if self.is_alive(rt) {
                self.value_spec(rt)
            } else {
                None::<i64>
            }),
    {
        if self.runtime == rt.id() {
            rt.try_read(self.id)
        } else {
            None
        }
    }

    pub fn try_get_untracked(&self, rt: &Runtime) -> (r: Option<i64>)
        requires
            rt.inv(),
        ensures
            r == (if self.is_alive(rt) {
                self.value_spec(rt)
            } else {
                None::<i64>
            }),
    {
        self.try_get(rt)
    }

    /// Applies `f` to the current value without cloning it out of the
    /// store's control.
    pub fn with<O, F: FnOnce(i64) -> O>(&self, rt: &Runtime, f: F) -> (r: O)
        requires
            rt.inv(),
            self.is_alive(rt),
            self.value_spec(rt) is Some,
            call_requires(f, (self.value_spec(rt)->Some_0,)),
        ensures
            call_ensures(f, (self.value_spec(rt)->Some_0,), r),
    {
        let v = rt.read(self.id);
        f(v)
    }

    pub fn with_untracked<O, F: FnOnce(i64) -> O>(&self, rt: &Runtime, f: F) -> (r: O)
        requires
            rt.inv(),
            self.is_alive(rt),
            self.value_spec(rt) is Some,
            call_requires(f, (self.value_spec(rt)->Some_0,)),
        ensures
            call_ensures(f, (self.value_spec(rt)->Some_0,), r),
    {
        let v = rt.read(self.id);
        f(v)
    }

    /// Applies `f` to the current value, or returns nothing on a stale
    /// handle without calling `f`.
    pub fn try_with<O, F: FnOnce(i64) -> O>(&self, rt: &Runtime, f: F) -> (r: Option<O>)
        requires
            rt.inv(),
            self.is_alive(rt) && self.value_spec(rt) is Some ==> call_requires(
                f,
                (self.value_spec(rt)->Some_0,),
            ),
        ensures
            r is Some <==> self.is_alive(rt) && self.value_spec(rt) is Some,
            r matches Some(o) ==> call_ensures(f, (self.value_spec(rt)->Some_0,), o),
    {
        let v = self.try_get(rt);
        match v {
            Some(x) => Some(f(x)),
            None => None,
        }
    }

    pub fn try_with_untracked<O, F: FnOnce(i64) -> O>(&self, rt: &Runtime, f: F) -> (r: Option<O>)
        requires
            rt.inv(),
            self.is_alive(rt) && self.value_spec(rt) is Some ==> call_requires(
                f,
                (self.value_spec(rt)->Some_0,),
            ),
        ensures
            r is Some <==> self.is_alive(rt) && self.value_spec(rt) is Some,
            r matches Some(o) ==> call_ensures(f, (self.value_spec(rt)->Some_0,), o),
    {
        self.try_with(rt, f)
    }

    /// Turns the memo into an asynchronous stream of its values.
    ///
    /// The contract pins the bridge down inside the graph: a fresh effect
    /// node now exists, owned by `sc`, whose computation is one tracked
    /// read of this memo — so the memo's subscriber list holds it, and by
    /// change-gated propagation it re-runs exactly once per actual change
    /// of the memo's value.  The effect ran eagerly once, and it carries
    /// the sending half of the returned channel (`emits_at`): every run
    /// publishes its value there, so the stream opens with the current
    /// value and then yields one element per change.  A cleanup closing
    /// that channel was registered in `sc`, so the stream ends when the
    /// owning scope is disposed; what the channel itself does with the
    /// published values — unbounded buffering, non-blocking sends, silent
    /// no-op after close — is the `futures` channel's own behaviour,
    /// relied on through the declarations in the stream module.
    pub fn to_stream(&self, rt: &mut Runtime, sx: &mut Scopes, sc: ScopeId) -> (rx: futures::channel::mpsc::UnboundedReceiver<i64>)
        requires
            old(rt).inv(),
            old(rt).nv().len() < usize::MAX,
            self.is_alive(&*old(rt)),
            old(rt).nv()[self.id.index as int].value is Some,
            (sc.index as nat) < old(sx).count(),
        ensures
            final(rt).inv(),
            final(rt).valid_id(self.id),
            final(rt).nv()[self.id.index as int].value == old(rt).nv()[self.id.index as int].value,
            final(rt).id_spec() == old(rt).id_spec(),
            final(sx).count() == old(sx).count(),
            final(sx).parents() == old(sx).parents(),
            final(sx).cleanups(sc).len() == old(sx).cleanups(sc).len() + 1,
            forall|o: ScopeId|
                o.index != sc.index ==> final(sx).cleanups(o) == old(sx).cleanups(o),
            forall|o: ScopeId| o.index != sc.index ==> final(sx).owned(o) == old(sx).owned(o),
            final(sx).owned(sc).len() == old(sx).owned(sc).len() + 1,
            ({
                let e = final(sx).owned(sc).last();
                &&& final(sx).owned(sc) == old(sx).owned(sc).push(e)
                &&& final(rt).valid_id(e)
                &&& e.index != self.id.index
                &&& final(rt).nv()[e.index as int].kind == NodeKind::Effect
                &&& final(rt).nv()[e.index as int].comp == Some(Expr::Read(self.id))
                &&& final(rt).nv()[e.index as int].runs == 1
                &&& final(rt).nv()[e.index as int].value == old(rt).nv()[self.id.index as int].value
                &&& final(rt).nv()[e.index as int].sources.contains(self.id.index)
                &&& final(rt).nv()[self.id.index as int].subs.contains(e.index)
                &&& final(rt).emits_at(e.index as int)
                &&& final(rt).emit_channel(e.index as int) == crate::stream::receiver_channel(rx)
                &&& forall|j: int|
                    0 <= j < old(rt).nv().len() && j != e.index as int ==> core_same(
                        #[trigger] final(rt).nv()[j],
                        old(rt).nv()[j],
                    )
            }),
            old(rt).nv().len() <= final(rt).nv().len() <= old(rt).nv().len() + 1,
            forall|o: NodeId| old(rt).valid_id(o) ==> final(rt).valid_id(o),
            final(sx).cleanups(sc) == old(sx).cleanups(sc).push(final(sx).cleanups(sc).last()),
            crate::scope::cleanup_channel(final(sx).cleanups(sc).last())
                == crate::stream::receiver_channel(rx),
            final(rt).emit_log() == old(rt).emit_log().push(
                (
                    crate::stream::receiver_channel(rx),
                    old(rt).nv()[self.id.index as int].value->Some_0,
                ),
            ),
    {
        let (tx, rx) = new_channel();
        let closer = clone_sender(&tx);
        sx.on_cleanup(sc, Cleanup::CloseChannel(closer));
        let f = Expr::Read(self.node_id());
        let ghost ns0 = rt.nv();
        proof {
            assert(comp_ok(ns0, f));
        }
        let eid = rt.create_derived(NodeKind::Effect, f, Some(tx));
        proof {
            assert(treads(f).contains(self.id.index)) by {
                assert(treads(f)[0] == self.id.index);
            }
            assert(rt.nv()[eid.index as int].value == ns0[self.id.index as int].value);
        }
        sx.adopt(sc, eid);
        rx
    }

    /// Disposes the memo's node: detaches it from its sources' subscriber
    /// lists and its subscribers' source lists, drops its cached value and
    /// computation, and bumps the slot's generation, leaving every other
    /// node untouched.  The handle goes stale, so `get` is thereafter
    /// excluded by contract and `try_get` returns nothing.  Disposing
    /// through an already stale or foreign handle changes nothing, so
    /// disposing twice is disposing once.
    pub fn dispose(self, rt: &mut Runtime)
        requires
            old(rt).inv(),
        ensures
            final(rt).inv(),
            final(rt).nv() == (if old(rt).id_spec() == self.runtime && old(rt).valid_id(self.id) {
                dispose_step(old(rt).nv(), self.id.index)
            } else {
                old(rt).nv()
            }),
            old(rt).id_spec() == self.runtime ==> !final(rt).valid_id(self.id),
            forall|o: NodeId| !old(rt).valid_id(o) ==> !final(rt).valid_id(o),
            final(rt).id_spec() == old(rt).id_spec(),
    {
        if self.runtime == rt.id() {
            rt.dispose_node(self.id);
        }
    }
}

} // verus!
