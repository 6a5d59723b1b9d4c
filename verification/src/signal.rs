//! Signals: the leaf values of the graph, set directly and read by
//! everything derived from them.

use vstd::prelude::*;
use crate::expr::Expr;
use crate::model::{dispose_step, falses, wave, with_value};
use crate::node::{NodeId, NodeKind, RuntimeId};
use crate::runtime::Runtime;
use crate::scope::{ScopeId, Scopes};

verus! {

/// The reading half of a signal: a plain copyable handle.
#[derive(Clone, Copy, PartialEq, Eq, Structural, Debug)]
pub struct Signal {
    pub runtime: RuntimeId,
    pub id: NodeId,
}

/// The writing half of a signal.
#[derive(Clone, Copy, PartialEq, Eq, Structural, Debug)]
pub struct Setter {
    pub runtime: RuntimeId,
    pub id: NodeId,
}

/// Creates a signal holding `initial`, owned by `sc`; returns the reading
/// and the writing half.
pub fn create_signal(rt: &mut Runtime, sx: &mut Scopes, sc: ScopeId, initial: i64) -> (r: (
    Signal,
    Setter,
))
    requires
        old(rt).inv(),
        old(rt).nv().len() < usize::MAX,
        (sc.index as nat) < old(sx).count(),
    ensures
        final(rt).inv(),
        r.0.runtime == final(rt).id_spec() && r.1.runtime == final(rt).id_spec(),
        r.0.id == r.1.id,
        final(rt).valid_id(r.0.id),
        final(rt).nv()[r.0.id.index as int].kind == NodeKind::Signal,
        final(rt).nv()[r.0.id.index as int].value == Some(initial),
        final(rt).nv()[r.0.id.index as int].subs.len() == 0,
        forall|j: int|
            0 <= j < old(rt).nv().len() && j != r.0.id.index as int ==> final(rt).nv()[j] == old(
                rt,
            ).nv()[j],
        old(rt).nv().len() <= final(rt).nv().len() <= old(rt).nv().len() + 1,
        (r.0.id.index as int) < old(rt).nv().len() ==> !old(rt).nv()[r.0.id.index as int].live,
        final(rt).emit_log() == old(rt).emit_log(),
        forall|o: NodeId| old(rt).valid_id(o) ==> final(rt).valid_id(o) && o.index != r.0.id.index,
        final(rt).id_spec() == old(rt).id_spec(),
        final(sx).count() == old(sx).count(),
        final(sx).owned(sc) == old(sx).owned(sc).push(r.0.id),
{
    let id = rt.create_signal_node(initial);
    sx.adopt(sc, id);
    let rid = rt.id();
    (Signal { runtime: rid, id }, Setter { runtime: rid, id })
}

impl Signal {
    /// The handle addresses a live node of this runtime.
    pub open spec fn is_alive(self, rt: &Runtime) -> bool {
        rt.id_spec() == self.runtime && rt.valid_id(self.id)
    }

    pub fn node_id(&self) -> (r: NodeId)
        ensures
            r == self.id,
    {
        self.id
    }

    /// The current value.  Reading through a disposed handle is a fatal
    /// programming error and is excluded by contract; `try_get` is the
    /// recoverable form.
    pub fn get(&self, rt: &Runtime) -> (r: i64)
        requires
            rt.inv(),
            self.is_alive(rt),
            rt.nv()[self.id.index as int].value is Some,
        ensures
            Some(r) == rt.nv()[self.id.index as int].value,
    {
        rt.read(self.id)
    }

    /// The current value without recording any dependency.  Outside a
    /// running computation `get` records none either; inside one, reads go
    /// through the running node's own expression instead of this handle.
    pub fn get_untracked(&self, rt: &Runtime) -> (r: i64)
        requires
            rt.inv(),
            self.is_alive(rt),
            rt.nv()[self.id.index as int].value is Some,
        ensures
            Some(r) == rt.nv()[self.id.index as int].value,
    {
        rt.read(self.id)
    }

    /// The current value, or nothing when the node was disposed or the
    /// handle belongs to another runtime.
    pub fn try_get(&self, rt: &Runtime) -> (r: Option<i64>)
        requires
            rt.inv(),
        ensures
            r == (if self.is_alive(rt) {
                rt.nv()[self.id.index as int].value
            } else {
                None::<i64>
            }),
    {
        if self.runtime == rt.id() {
            rt.try_read(self.id)
        } else {
            None
        }
    }

    pub fn try_get_untracked(&self, rt: &Runtime) -> (r: Option<i64>)
        requires
            rt.inv(),
        ensures
            r == (if self.is_alive(rt) {
                rt.nv()[self.id.index as int].value
            } else {
                None::<i64>
            }),
    {
        self.try_get(rt)
    }

    /// Applies `f` to the current value without cloning it out of the
    /// store's control.
    pub fn with<O, F: FnOnce(i64) -> O>(&self, rt: &Runtime, f: F) -> (r: O)
        requires
            rt.inv(),
            self.is_alive(rt),
            rt.nv()[self.id.index as int].value is Some,
            call_requires(f, (rt.nv()[self.id.index as int].value->Some_0,)),
        ensures
            call_ensures(f, (rt.nv()[self.id.index as int].value->Some_0,), r),
    {
        let v = rt.read(self.id);
        f(v)
    }

    pub fn with_untracked<O, F: FnOnce(i64) -> O>(&self, rt: &Runtime, f: F) -> (r: O)
        requires
            rt.inv(),
            self.is_alive(rt),
            rt.nv()[self.id.index as int].value is Some,
            call_requires(f, (rt.nv()[self.id.index as int].value->Some_0,)),
        ensures
            call_ensures(f, (rt.nv()[self.id.index as int].value->Some_0,), r),
    {
        let v = rt.read(self.id);
        f(v)
    }

    /// Applies `f` to the current value, or returns nothing on a stale
    /// handle without calling `f`.
    pub fn try_with<O, F: FnOnce(i64) -> O>(&self, rt: &Runtime, f: F) -> (r: Option<O>)
        requires
            rt.inv(),
            self.is_alive(rt) && rt.nv()[self.id.index as int].value is Some ==> call_requires(
                f,
                (rt.nv()[self.id.index as int].value->Some_0,),
            ),
        ensures
            r is Some <==> self.is_alive(rt) && rt.nv()[self.id.index as int].value is Some,
            r matches Some(o) ==> call_ensures(
                f,
                (rt.nv()[self.id.index as int].value->Some_0,),
                o,
            ),
    {
        let v = self.try_get(rt);
        match v {
            Some(x) => Some(f(x)),
            None => None,
        }
    }

    pub fn try_with_untracked<O, F: FnOnce(i64) -> O>(&self, rt: &Runtime, f: F) -> (r: Option<O>)
        requires
            rt.inv(),
            self.is_alive(rt) && rt.nv()[self.id.index as int].value is Some ==> call_requires(
                f,
                (rt.nv()[self.id.index as int].value->Some_0,),
            ),
        ensures
            r is Some <==> self.is_alive(rt) && rt.nv()[self.id.index as int].value is Some,
            r matches Some(o) ==> call_ensures(
                f,
                (rt.nv()[self.id.index as int].value->Some_0,),
                o,
            ),
    {
        self.try_with(rt, f)
    }

    /// Disposes the signal's node, detaching it from the graph and leaving
    /// every other node untouched; the handle goes stale.  Disposing
    /// through an already stale or foreign handle changes nothing.
    pub fn dispose(self, rt: &mut Runtime)
        requires
            old(rt).inv(),
        ensures
            final(rt).inv(),
            final(rt).nv() == (if old(rt).id_spec() == self.runtime && old(rt).valid_id(self.id) {
                dispose_step(old(rt).nv(), self.id.index)
            } else {
                old(rt).nv()
            }),
            old(rt).id_spec() == self.runtime ==> !final(rt).valid_id(self.id),
            forall|o: NodeId| !old(rt).valid_id(o) ==> !final(rt).valid_id(o),
            final(rt).id_spec() == old(rt).id_spec(),
    {
        if self.runtime == rt.id() {
            rt.dispose_node(self.id);
        }
    }
}

impl Setter {
    /// Writes `v` into the signal unconditionally and propagates: every
    /// subscriber re-runs as one synchronous wave before this returns.
    /// Writing through a disposed handle is excluded by contract; the
    /// recoverable form is `try_set`.
    pub fn set(&self, rt: &mut Runtime, v: i64)
        requires
            old(rt).inv(),
            old(rt).id_spec() == self.runtime,
            old(rt).valid_id(self.id),
            old(rt).nv()[self.id.index as int].kind == NodeKind::Signal,
        ensures
            final(rt).inv(),
            final(rt).nv() == wave(
                old(rt).nv().update(
                    self.id.index as int,
                    with_value(old(rt).nv()[self.id.index as int], Some(v)),
                ),
                old(rt).nv()[self.id.index as int].subs,
                falses(old(rt).nv().len()),
            ),
            forall|j: int| #[trigger] final(rt).emits_at(j) == old(rt).emits_at(j),
            final(rt).emit_log() == old(rt).emit_log() + crate::model::wave_emits(
                old(rt).nv().update(
                    self.id.index as int,
                    with_value(old(rt).nv()[self.id.index as int], Some(v)),
                ),
                old(rt).nv()[self.id.index as int].subs,
                falses(old(rt).nv().len()),
                old(rt).chans(),
            ),
            final(rt).id_spec() == old(rt).id_spec(),
    {
        rt.write(self.id, v)
    }

    /// Writes and propagates as `set`, or reports `false` when the handle
    /// has gone stale.
    pub fn try_set(&self, rt: &mut Runtime, v: i64) -> (ok: bool)
        requires
            old(rt).inv(),
        ensures
            final(rt).inv(),
            ok == (old(rt).id_spec() == self.runtime && old(rt).valid_id(self.id) && old(rt).nv()[
                self.id.index as int
            ].kind == NodeKind::Signal),
            ok ==> final(rt).nv() == wave(
                old(rt).nv().update(
                    self.id.index as int,
                    with_value(old(rt).nv()[self.id.index as int], Some(v)),
                ),
                old(rt).nv()[self.id.index as int].subs,
                falses(old(rt).nv().len()),
            ),
            !ok ==> final(rt).nv() == old(rt).nv(),
            forall|j: int| #[trigger] final(rt).emits_at(j) == old(rt).emits_at(j),
            ok ==> final(rt).emit_log() == old(rt).emit_log() + crate::model::wave_emits(
                old(rt).nv().update(
                    self.id.index as int,
                    with_value(old(rt).nv()[self.id.index as int], Some(v)),
                ),
                old(rt).nv()[self.id.index as int].subs,
                falses(old(rt).nv().len()),
                old(rt).chans(),
            ),
            !ok ==> final(rt).emit_log() == old(rt).emit_log(),
            final(rt).id_spec() == old(rt).id_spec(),
    {
        if self.runtime == rt.id() && rt.is_valid(self.id) && rt.kind_of(self.id)
            == NodeKind::Signal {
            rt.write(self.id, v);
            true
        } else {
            false
        }
    }
}

/// An effect: a derived node with no readable value, run eagerly on
/// creation and re-run on every change of any source; it exists for its
/// side channel (for instance feeding a stream).
#[derive(Clone, Copy, PartialEq, Eq, Structural, Debug)]
pub struct Effect {
    pub runtime: RuntimeId,
    pub id: NodeId,
}

/// Creates an effect with computation `f`, owned by `sc`, and runs it
/// immediately.
pub fn create_effect(rt: &mut Runtime, sx: &mut Scopes, sc: ScopeId, f: Expr) -> (e: Effect)
    requires
        old(rt).inv(),
        old(rt).nv().len() < usize::MAX,
        crate::expr::comp_ok(old(rt).nv(), f),
        (sc.index as nat) < old(sx).count(),
    ensures
        final(rt).inv(),
        e.runtime == final(rt).id_spec(),
        final(rt).valid_id(e.id),
        final(rt).nv()[e.id.index as int].kind == NodeKind::Effect,
        final(rt).nv()[e.id.index as int].comp == Some(f),
        final(rt).nv()[e.id.index as int].value == Some(
            crate::expr::eval_val(f, old(rt).nv(), None::<i64>),
        ),
        final(rt).nv()[e.id.index as int].runs == 1,
        final(rt).nv()[e.id.index as int].subs.len() == 0,
        forall|y: usize|
            #[trigger] final(rt).nv()[e.id.index as int].sources.contains(y)
                <==> crate::expr::treads(f).contains(y) && y != e.id.index,
        forall|j: int|
            0 <= j < old(rt).nv().len() && j != e.id.index as int ==> crate::model::core_same(
                #[trigger] final(rt).nv()[j],
                old(rt).nv()[j],
            ),
        forall|j: int, y: usize|
            0 <= j < old(rt).nv().len() && j != e.id.index as int
                && (#[trigger] final(rt).nv()[j].subs.contains(y)) ==> old(
                rt,
            ).nv()[j].subs.contains(y) || y == e.id.index,
        forall|j: int, y: usize|
            0 <= j < old(rt).nv().len() && j != e.id.index as int && old(
                rt,
            ).nv()[j].subs.contains(y) ==> (#[trigger] final(rt).nv()[j].subs.contains(y)),
        forall|j: int|
            0 <= j < final(rt).nv().len() && j != e.id.index as int
                ==> ((#[trigger] final(rt).nv()[j].subs.contains(e.id.index))
                <==> crate::expr::treads(f).contains(j as usize)),
        old(rt).nv().len() <= final(rt).nv().len() <= old(rt).nv().len() + 1,
        (e.id.index as int) < old(rt).nv().len() ==> !old(rt).nv()[e.id.index as int].live,
        final(rt).emit_log() == old(rt).emit_log(),
        forall|o: NodeId| old(rt).valid_id(o) ==> final(rt).valid_id(o) && o.index != e.id.index,
        final(rt).id_spec() == old(rt).id_spec(),
        final(sx).count() == old(sx).count(),
        final(sx).owned(sc) == old(sx).owned(sc).push(e.id),
{
    let id = rt.create_derived(NodeKind::Effect, f, None);
    sx.adopt(sc, id);
    Effect { runtime: rt.id(), id }
}

impl Effect {
    /// Disposes the effect's node, detaching it from the graph and leaving
    /// every other node untouched: it will never run again, and the handle
    /// goes stale.  Disposing through an already stale or foreign handle
    /// changes nothing.
    pub fn dispose(self, rt: &mut Runtime)
        requires
            old(rt).inv(),
        ensures
            final(rt).inv(),
            final(rt).nv() == (if old(rt).id_spec() == self.runtime && old(rt).valid_id(self.id) {
                dispose_step(old(rt).nv(), self.id.index)
            } else {
                old(rt).nv()
            }),
            old(rt).id_spec() == self.runtime ==> !final(rt).valid_id(self.id),
            forall|o: NodeId| !old(rt).valid_id(o) ==> !final(rt).valid_id(o),
            final(rt).id_spec() == old(rt).id_spec(),
    {
        if self.runtime == rt.id() {
            rt.dispose_node(self.id);
        }
    }
}

} // verus!
