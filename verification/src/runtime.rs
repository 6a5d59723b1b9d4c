//! The runtime: one arena of reactive nodes and the operations on it.
//!
//! Every public operation takes the runtime explicitly; the state of the
//! graph is the view `nv()`, a sequence of node models, and every
//! operation's contract says how it transforms that view.  The active
//! observer — the computation currently running — is threaded explicitly
//! through evaluation: while node `h` re-runs, `h` is the observer, and a
//! tracked read performed by its computation records an edge to `h`.
//! Outside a re-run there is no observer, so reads through the public
//! operations never record edges.

use vstd::prelude::*;
use crate::expr::{comp_ok, eval_val, val_at, Expr};
use crate::node::{NodeId, NodeKind, NodeV, RuntimeId};
use crate::model::{
    add_edge, dead_node, detach_rec, detach_subs_rec, dispose_step, edge_list_ok, eval_edges,
    falses, lemma_comp_ok_frame, lemma_dispose_wf, lemma_eval_edges_core, lemma_eval_val_frame,
    lemma_remove_first_absent, lemma_remove_first_at, lemma_run_detach_wf, lemma_run_step_core,
    lemma_run_step_full, nodup, remove_first, run_detach, run_step, runnable, unran, wave, wf,
    with_sources, with_subs, with_value,
};

verus! {

/// Whether `v` holds `x`.
fn contains_u(v: &Vec<usize>, x: usize) -> (b: bool)
    ensures
        b == v@.contains(x),
{
    let mut k: usize = 0;
    while k < v.len()
        invariant
            k <= v@.len(),
            forall|m: int| 0 <= m < k ==> v@[m] != x,
        decreases v@.len() - k,
    {
        if v[k] == x {
            assert(v@.contains(x)) by {
                assert(v@[k as int] == x);
            }
            return true;
        }
        k += 1;
    }
    false
}

/// Removes the first occurrence of `x` from `v`, if any.
fn remove_elem(v: &mut Vec<usize>, x: usize)
    ensures
        final(v)@ == remove_first(old(v)@, x),
{
    let ghost s = old(v)@;
    proof {
        assert(v@ == s);
    }
    let mut k: usize = 0;
    while k < v.len()
        invariant
            s == old(v)@,
            v@ == s,
            k <= s.len(),
            forall|m: int| 0 <= m < k ==> s[m] != x,
        decreases s.len() - k,
    {
        if v[k] == x {
            assert(s[k as int] == x);
            v.remove(k);
            proof {
                lemma_remove_first_at(s, x, k as int);
                assert(v@ == s.remove(k as int));
                assert(v@ == remove_first(s, x));
            }
            return ;
        }
        k += 1;
    }
    proof {
        lemma_remove_first_absent(s, x);
    }
}

/// One runtime: the node store plus its free list.  All the parallel
/// vectors have the same length; slot `i` of each describes node `i`.
pub struct Runtime {
    rt_id: u64,
    live: Vec<bool>,
    gens: Vec<u64>,
    kinds: Vec<NodeKind>,
    values: Vec<Option<i64>>,
    comps: Vec<Option<Expr>>,
    srcs: Vec<Vec<usize>>,
    subs: Vec<Vec<usize>>,
    runs: Vec<u64>,
    emits: Vec<Option<futures::channel::mpsc::UnboundedSender<i64>>>,
    free: Vec<usize>,
    emitted: Ghost<Seq<(int, i64)>>,
}

impl Runtime {
    /// The model of the node store.
    pub closed spec fn nv(&self) -> Seq<NodeV> {
        Seq::new(
            self.live@.len(),
            |i: int|
                NodeV {
                    live: self.live@[i],
                    generation: self.gens@[i],
                    kind: self.kinds@[i],
                    value: self.values@[i],
                    comp: self.comps@[i],
                    sources: self.srcs@[i]@,
                    subs: self.subs@[i]@,
                    runs: self.runs@[i],
                },
        )
    }

    pub closed spec fn id_spec(&self) -> RuntimeId {
        RuntimeId { id: self.rt_id }
    }

    spec fn arrays_ok(&self) -> bool {
        &&& self.gens@.len() == self.live@.len()
        &&& self.kinds@.len() == self.live@.len()
        &&& self.values@.len() == self.live@.len()
        &&& self.comps@.len() == self.live@.len()
        &&& self.srcs@.len() == self.live@.len()
        &&& self.subs@.len() == self.live@.len()
        &&& self.runs@.len() == self.live@.len()
        &&& self.emits@.len() == self.live@.len()
        &&& self.live@.len() <= usize::MAX
        &&& nodup(self.free@)
        &&& forall|k: int|
            0 <= k < self.free@.len() ==> (self.free@[k] as int) < self.live@.len()
                && !self.live@[self.free@[k] as int]
    }

    /// The runtime's invariant: the arrays agree and the graph is well
    /// formed.  Every public operation preserves it.
    pub closed spec fn inv(&self) -> bool {
        self.arrays_ok() && wf(self.nv())
    }

    /// Whether slot `i` publishes into a stream: it holds the sending half
    /// of a channel, fed on every run of the node.
    pub closed spec fn emits_at(&self, i: int) -> bool {
        0 <= i < self.emits@.len() && self.emits@[i] is Some
    }

    /// The channel the sending half in slot `i` belongs to, under the
    /// channel-identity names of the stream module.
    pub closed spec fn emit_channel(&self, i: int) -> int {
        if 0 <= i < self.emits@.len() && self.emits@[i] is Some {
            crate::stream::sender_channel(self.emits@[i]->Some_0)
        } else {
            0
        }
    }

    /// The channel of each slot's sending half, if any: the `chans`
    /// argument of the model's `wave_emits`.
    pub closed spec fn chans(&self) -> Seq<Option<int>> {
        Seq::new(
            self.emits@.len(),
            |i: int|
                match self.emits@[i] {
                    Some(tx) => Some(crate::stream::sender_channel(tx)),
                    None => None,
                },
        )
    }

    /// Everything this runtime has ever published into streams: one entry
    /// per run of an emitting node — the channel and the value sent, in
    /// order.  The log only grows; each run of an emitting node appends
    /// exactly its newly computed value.
    pub closed spec fn emit_log(&self) -> Seq<(int, i64)> {
        self.emitted@
    }

    /// The public bridge from the runtime's invariant to the graph
    /// invariant: callers may reason with well-formedness — in particular
    /// with the bidirectional consistency of the source/subscriber
    /// relation — over the model `nv()`.
    pub proof fn lemma_graph_wf(&self)
        requires
            self.inv(),
        ensures
            wf(self.nv()),
            self.nv().len() <= usize::MAX,
    {
    }

    /// A handle is valid while its slot is live under the same generation.
    pub open spec fn valid_id(&self, id: NodeId) -> bool {
        (id.index as int) < self.nv().len() && self.nv()[id.index as int].live && self.nv()[
            id.index as int
        ].generation == id.generation
    }

    /// Creates an empty runtime under the given identifier.
    pub fn new(id: u64) -> (rt: Runtime)
        ensures
            rt.inv(),
            rt.nv().len() == 0,
            rt.emit_log().len() == 0,
            rt.id_spec() == (RuntimeId { id }),
    {
        let rt = Runtime {
            rt_id: id,
            live: Vec::new(),
            gens: Vec::new(),
            kinds: Vec::new(),
            values: Vec::new(),
            comps: Vec::new(),
            srcs: Vec::new(),
            subs: Vec::new(),
            runs: Vec::new(),
            emits: Vec::new(),
            free: Vec::new(),
            emitted: Ghost(Seq::empty()),
        };
        proof {
            assert(rt.nv() =~= Seq::<NodeV>::empty());
        }
        rt
    }

    /// Allocates a slot for a fresh node, reusing a disposed slot when one
    /// is free.  The fresh node is live, edgeless and not yet run; every
    /// other node and every valid handle is untouched.
    fn alloc_node(
        &mut self,
        kind: NodeKind,
        value: Option<i64>,
        comp: Option<Expr>,
        emit: Option<futures::channel::mpsc::UnboundedSender<i64>>,
    ) -> (idx: usize)
        requires
            old(self).inv(),
            old(self).nv().len() < usize::MAX,
            kind == NodeKind::Signal <==> comp is None,
        ensures
            final(self).inv(),
            (idx as int) < final(self).nv().len(),
            old(self).nv().len() <= final(self).nv().len() <= old(self).nv().len() + 1,
            final(self).nv()[idx as int] == (NodeV {
                live: true,
                generation: final(self).nv()[idx as int].generation,
                kind,
                value,
                comp,
                sources: Seq::<usize>::empty(),
                subs: Seq::<usize>::empty(),
                runs: 0,
            }),
            forall|j: int|
                0 <= j < old(self).nv().len() && j != idx as int ==> final(self).nv()[j] == old(
                    self,
                ).nv()[j],
            forall|id: NodeId|
                old(self).valid_id(id) ==> final(self).valid_id(id) && id.index != idx,
            (idx as int) < old(self).nv().len() ==> !old(self).nv()[idx as int].live,
            final(self).emits_at(idx as int) == (emit is Some),
            emit matches Some(tx) ==> final(self).emit_channel(idx as int)
                == crate::stream::sender_channel(tx),
            forall|j: int|
                0 <= j < old(self).nv().len() && j != idx as int
                    ==> #[trigger] final(self).emits_at(j) == old(self).emits_at(j)
                    && #[trigger] final(self).emit_channel(j) == old(self).emit_channel(j),
            final(self).emit_log() == old(self).emit_log(),
            final(self).id_spec() == old(self).id_spec(),
    {
        let ghost ns0 = self.nv();
        if self.free.len() > 0 {
            let idx = self.free[self.free.len() - 1];
            self.free.pop();
            proof {
                assert(ns0[idx as int].live == false);
                assert forall|k: int|
                    0 <= k < self.free@.len() implies (self.free@[k] as int) < self.live@.len()
                    && !self.live@[self.free@[k] as int] by {
                    assert(old(self).free@[k] == self.free@[k]);
                }
                assert forall|k: int| 0 <= k < self.free@.len() implies self.free@[k] != idx by {
                    assert(old(self).free@[k] == old(self).free@[old(self).free@.len() - 1]
                        ==> false);
                }
            }
            self.live.set(idx, true);
            self.kinds.set(idx, kind);
            self.values.set(idx, value);
            self.comps.set(idx, comp);
            self.srcs.set(idx, Vec::new());
            self.subs.set(idx, Vec::new());
            self.runs.set(idx, 0);
            self.emits.set(idx, emit);
            proof {
                let n = NodeV {
                    live: true,
                    generation: ns0[idx as int].generation,
                    kind,
                    value,
                    comp,
                    sources: Seq::<usize>::empty(),
                    subs: Seq::<usize>::empty(),
                    runs: 0,
                };
                assert(self.nv() =~~= ns0.update(idx as int, n));
                self.lemma_reuse_wf(ns0, idx as int, n);
            }
            idx
        } else {
            let idx = self.live.len();
            self.live.push(true);
            self.gens.push(0);
            self.kinds.push(kind);
            self.values.push(value);
            self.comps.push(comp);
            self.srcs.push(Vec::new());
            self.subs.push(Vec::new());
            self.runs.push(0);
            self.emits.push(emit);
            proof {
                let n = NodeV {
                    live: true,
                    generation: 0,
                    kind,
                    value,
                    comp,
                    sources: Seq::<usize>::empty(),
                    subs: Seq::<usize>::empty(),
                    runs: 0,
                };
                assert(self.nv() =~~= ns0.push(n));
                self.lemma_push_wf(ns0, n);
            }
            idx
        }
    }

    /// A fresh edgeless node in a slot nothing points at keeps the graph
    /// well formed.
    proof fn lemma_reuse_wf(&self, ns0: Seq<NodeV>, idx: int, n: NodeV)
        requires
            wf(ns0),
            0 <= idx < ns0.len(),
            !ns0[idx].live,
            self.nv() == ns0.update(idx, n),
            n.sources.len() == 0,
            n.subs.len() == 0,
            n.live,
            n.kind == NodeKind::Signal <==> n.comp is None,
        ensures
            wf(self.nv()),
    {
        let r = self.nv();
        assert forall|i: int| 0 <= i < r.len() implies edge_list_ok(r, #[trigger] r[i].subs, i)
            && edge_list_ok(r, r[i].sources, i) by {
            if i != idx {
                assert(edge_list_ok(ns0, ns0[i].subs, i));
                assert(edge_list_ok(ns0, ns0[i].sources, i));
                assert forall|k: int|
                    0 <= k < r[i].subs.len() implies (r[i].subs[k] as int) < r.len() && r[r[
                    i
                ].subs[k] as int].live && (r[i].subs[k] as int) != i by {
                    assert(ns0[ns0[i].subs[k] as int].live);
                }
                assert forall|k: int|
                    0 <= k < r[i].sources.len() implies (r[i].sources[k] as int) < r.len() && r[r[
                    i
                ].sources[k] as int].live && (r[i].sources[k] as int) != i by {
                    assert(ns0[ns0[i].sources[k] as int].live);
                }
            }
        }
        assert forall|i: int, j: int|
            0 <= i < r.len() && 0 <= j < r.len() implies ((#[trigger] r[i].subs.contains(
            j as usize,
        )) <==> r[j].sources.contains(i as usize)) by {
            assert(ns0[i].subs.contains(j as usize) <==> ns0[j].sources.contains(i as usize));
            if i == idx || j == idx {
                if ns0[i].subs.contains(j as usize) {
                    let k = choose|k: int|
                        0 <= k < ns0[i].subs.len() && ns0[i].subs[k] == j as usize;
                    assert(ns0[ns0[i].subs[k] as int].live);
                }
                if ns0[j].sources.contains(i as usize) {
                    let k = choose|k: int|
                        0 <= k < ns0[j].sources.len() && ns0[j].sources[k] == i as usize;
                    assert(ns0[ns0[j].sources[k] as int].live);
                }
            }
        }
    }

    /// Whether every node the expression mentions is still valid: the
    /// runtime check that gates a (re-)run.
    fn expr_ok(&self, e: &Expr) -> (b: bool)
        requires
            self.inv(),
        ensures
            b == comp_ok(self.nv(), *e),
        decreases e,
    {
        match e {
            Expr::Const(_) => true,
            Expr::Read(id) => id.index < self.live.len() && self.live[id.index]
                && self.gens[id.index] == id.generation,
            Expr::ReadUntracked(id) => id.index < self.live.len() && self.live[id.index]
                && self.gens[id.index] == id.generation,
            Expr::PrevOr(_) => true,
            Expr::Add(l, r) => self.expr_ok(l) && self.expr_ok(r),
            Expr::Min(l, r) => self.expr_ok(l) && self.expr_ok(r),
        }
    }

    /// Records the edge "`me` subscribes to `s`" in both directions,
    /// unless it is already present.
    fn add_edge_x(&mut self, s: usize, me: usize)
        requires
            old(self).inv(),
            (s as int) < old(self).nv().len(),
            (me as int) < old(self).nv().len(),
            old(self).nv()[s as int].live,
            old(self).nv()[me as int].live,
            old(self).nv()[me as int].comp is Some,
        ensures
            final(self).inv(),
            final(self).nv() == add_edge(old(self).nv(), s, me),
            final(self).emits@ == old(self).emits@,
            final(self).emit_log() == old(self).emit_log(),
            final(self).id_spec() == old(self).id_spec(),
    {
        let ghost ns0 = self.nv();
        if s != me && !contains_u(&self.subs[s], me) {
            self.subs[s].push(me);
            self.srcs[me].push(s);
            proof {
                assert(self.nv() =~~= add_edge(ns0, s, me));
                crate::model::lemma_add_edge_wf(ns0, s, me);
            }
        } else {
            proof {
                assert(self.nv() =~~= add_edge(ns0, s, me));
            }
        }
    }

    /// Evaluates `e` as the computation of node `me`: returns its value
    /// over the current graph and records an edge for every tracked read.
    fn eval_x(&mut self, e: &Expr, me: usize, prev: Option<i64>) -> (v: i64)
        requires
            old(self).inv(),
            comp_ok(old(self).nv(), *e),
            (me as int) < old(self).nv().len(),
            old(self).nv()[me as int].live,
            old(self).nv()[me as int].comp is Some,
        ensures
            final(self).inv(),
            final(self).nv() == eval_edges(old(self).nv(), *e, me),
            v == eval_val(*e, old(self).nv(), prev),
            final(self).emits@ == old(self).emits@,
            final(self).emit_log() == old(self).emit_log(),
            final(self).id_spec() == old(self).id_spec(),
        decreases e,
    {
        match e {
            Expr::Const(c) => *c,
            Expr::Read(id) => {
                let ix = id.index;
                let v = match self.values[ix] {
                    Some(x) => x,
                    None => 0,
                };
                self.add_edge_x(ix, me);
                v
            },
            Expr::ReadUntracked(id) => {
                let ix = id.index;
                match self.values[ix] {
                    Some(x) => x,
                    None => 0,
                }
            },
            Expr::PrevOr(d) => match prev {
                Some(p) => p,
                None => *d,
            },
            Expr::Add(l, r) => {
                let ghost ns0 = self.nv();
                let a = self.eval_x(l, me, prev);
                proof {
                    lemma_eval_edges_core(ns0, **l, me);
                    lemma_comp_ok_frame(**r, ns0, self.nv());
                    assert forall|y: usize| crate::expr::rds(**r).contains(y) implies val_at(
                        self.nv(),
                        y,
                    ) == val_at(ns0, y) by {}
                    lemma_eval_val_frame(**r, self.nv(), ns0, prev);
                }
                let b = self.eval_x(r, me, prev);
                a.wrapping_add(b)
            },
            Expr::Min(l, r) => {
                let ghost ns0 = self.nv();
                let a = self.eval_x(l, me, prev);
                proof {
                    lemma_eval_edges_core(ns0, **l, me);
                    lemma_comp_ok_frame(**r, ns0, self.nv());
                    assert forall|y: usize| crate::expr::rds(**r).contains(y) implies val_at(
                        self.nv(),
                        y,
                    ) == val_at(ns0, y) by {}
                    lemma_eval_val_frame(**r, self.nv(), ns0, prev);
                }
                let b = self.eval_x(r, me, prev);
                if a <= b {
                    a
                } else {
                    b
                }
            },
        }
    }

    /// Re-runs node `h`: detaches it from its old sources, evaluates its
    /// computation with the previous cached value, rediscovers its edges,
    /// stores the new value and reports whether it changed.  If the node
    /// publishes into a stream, the new value is sent there as well.
    fn run_node(&mut self, h: usize) -> (chg: bool)
        requires
            old(self).inv(),
            runnable(old(self).nv(), h),
        ensures
            final(self).inv(),
            final(self).nv() == run_step(old(self).nv(), h).0,
            chg == run_step(old(self).nv(), h).1,
            final(self).emits@ == old(self).emits@,
            final(self).emit_log() == old(self).emit_log() + (if old(self).emits_at(h as int) {
                seq![
                    (
                        old(self).emit_channel(h as int),
                        run_step(old(self).nv(), h).0[h as int].value->Some_0,
                    ),
                ]
            } else {
                Seq::empty()
            }),
            final(self).id_spec() == old(self).id_spec(),
    {
        let ghost ns0 = self.nv();
        let mut sv: Vec<usize> = Vec::new();
        self.srcs.set_and_swap(h, &mut sv);
        let ghost ns_a = self.nv();
        proof {
            assert(ns_a =~~= ns0.update(h as int, with_sources(ns0[h as int], Seq::<usize>::empty())));
        }
        proof {
            assert(sv@.subrange(0, sv@.len() as int) =~= sv@);
        }
        let mut k: usize = 0;
        while k < sv.len()
            invariant
                self.arrays_ok(),
                (h as int) < ns0.len(),
                ns0.len() <= usize::MAX,
                sv@ == ns0[h as int].sources,
                ns_a == ns0.update(h as int, with_sources(ns0[h as int], Seq::<usize>::empty())),
                self.nv().len() == ns0.len(),
                k <= sv@.len(),
                detach_rec(ns_a, h, sv@) == detach_rec(
                    self.nv(),
                    h,
                    sv@.subrange(k as int, sv@.len() as int),
                ),
                self.id_spec() == old(self).id_spec(),
                self.comps@ == old(self).comps@,
                self.values@ == old(self).values@,
                self.live@ == old(self).live@,
                self.gens@ == old(self).gens@,
                self.emits@ == old(self).emits@,
                self.emitted == old(self).emitted,
            decreases sv@.len() - k,
        {
            let ghost nv_b = self.nv();
            let ghost q = sv@.subrange(k as int, sv@.len() as int);
            let s = sv[k];
            proof {
                assert(q[0] == s);
                assert(q.drop_first() =~= sv@.subrange(k + 1, sv@.len() as int));
            }
            if s < self.live.len() {
                remove_elem(&mut self.subs[s], h);
                proof {
                    assert(self.nv() =~~= nv_b.update(
                        s as int,
                        with_subs(nv_b[s as int], remove_first(nv_b[s as int].subs, h)),
                    ));
                }
            }
            k += 1;
        }
        proof {
            assert(sv@.subrange(sv@.len() as int, sv@.len() as int) =~= Seq::<usize>::empty());
            assert(self.nv() == detach_rec(ns_a, h, sv@));
            assert(self.nv() == run_detach(ns0, h));
            lemma_run_detach_wf(ns0, h);
        }
        let ce: Expr = match &self.comps[h] {
            Some(e) => e.clone(),
            None => {
                // A runnable node carries a computation; this arm is proven
                // unreachable.
                proof {
                    assert(false);
                }
                Expr::Const(0)
            },
        };
        let prev = self.values[h];
        proof {
            assert(ce == ns0[h as int].comp->Some_0);
            assert(prev == ns0[h as int].value);
            lemma_comp_ok_frame(ce, ns0, self.nv());
        }
        let ghost ns1 = self.nv();
        let v = self.eval_x(&ce, h, prev);
        proof {
            lemma_eval_edges_core(ns1, ce, h);
            assert(self.nv().len() == ns0.len());
        }
        let changed = match prev {
            Some(p) => p != v,
            None => true,
        };
        self.values.set(h, Some(v));
        let rc = self.runs[h];
        if rc < u64::MAX {
            self.runs.set(h, rc + 1);
        }
        let ghost ch = self.emit_channel(h as int);
        let sent = match &self.emits[h] {
            Some(tx) => {
                crate::stream::send_value(tx, v);
                true
            },
            None => false,
        };
        if sent {
            self.emitted = Ghost(self.emitted@.push((ch, v)));
        }
        proof {
            lemma_eval_edges_core(ns1, ce, h);
            assert(self.nv() =~~= run_step(ns0, h).0);
            assert(changed == run_step(ns0, h).1);
            lemma_run_step_full(ns0, h);
        }
        changed
    }

    /// One propagation wave: processes the queue breadth-first, runs each
    /// candidate node at most once, and appends a node's subscribers after
    /// a run that changed its value.
    fn notify(&mut self, q0: Vec<usize>)
        requires
            old(self).inv(),
        ensures
            final(self).inv(),
            final(self).nv() == wave(old(self).nv(), q0@, falses(old(self).nv().len())),
            final(self).emits@ == old(self).emits@,
            final(self).emit_log() == old(self).emit_log() + crate::model::wave_emits(
                old(self).nv(),
                q0@,
                falses(old(self).nv().len()),
                old(self).chans(),
            ),
            final(self).id_spec() == old(self).id_spec(),
    {
        let ghost ns0 = self.nv();
        let ghost log0 = self.emit_log();
        let ghost ch0 = self.chans();
        let n = self.live.len();
        let mut ran: Vec<bool> = Vec::new();
        while ran.len() < n
            invariant
                ran@ =~= falses(ran@.len()),
                ran@.len() <= n,
            decreases n - ran@.len(),
        {
            ran.push(false);
            proof {
                assert(ran@ =~= falses(ran@.len()));
            }
        }
        proof {
            assert(ran@ =~= falses(ns0.len()));
            assert(q0@.subrange(0, q0@.len() as int) =~= q0@);
            assert(n == ns0.len());
        }
        let mut q = q0;
        let mut qi: usize = 0;
        while qi < q.len()
            invariant
                self.inv(),
                self.nv().len() == ns0.len(),
                n == ns0.len(),
                ns0 == old(self).nv(),
                ran@.len() == ns0.len(),
                qi <= q@.len(),
                wave(ns0, q0@, falses(ns0.len())) == wave(
                    self.nv(),
                    q@.subrange(qi as int, q@.len() as int),
                    ran@,
                ),
                self.emits@ == old(self).emits@,
                log0 == old(self).emit_log(),
                ch0 == old(self).chans(),
                self.chans() == ch0,
                log0 + crate::model::wave_emits(ns0, q0@, falses(ns0.len()), ch0)
                    == self.emit_log() + crate::model::wave_emits(
                    self.nv(),
                    q@.subrange(qi as int, q@.len() as int),
                    ran@,
                    ch0,
                ),
                self.id_spec() == old(self).id_spec(),
            decreases unran(ran@), q@.len() - qi,
        {
            let ghost nv_b = self.nv();
            let ghost ran_b = ran@;
            let ghost tail = q@.subrange(qi as int, q@.len() as int);
            let h = q[qi];
            proof {
                assert(tail[0] == h);
                assert(tail.drop_first() =~= q@.subrange(qi + 1, q@.len() as int));
            }
            let mut can_run = false;
            if h < n && !ran[h] && self.live[h] {
                match &self.comps[h] {
                    Some(e) => {
                        can_run = self.expr_ok(e);
                    },
                    None => {},
                }
            }
            proof {
                assert(can_run == ((h as int) < ran_b.len() && !ran_b[h as int] && runnable(
                    nv_b,
                    h,
                )));
            }
            if can_run {
                proof {
                    crate::model::lemma_unran_update(ran_b, h as int);
                }
                let chg = self.run_node(h);
                proof {
                    lemma_run_step_core(nv_b, h);
                    assert(self.nv().len() == ns0.len());
                    assert((h as int) < self.subs@.len());
                    assert(self.nv()[h as int].subs == self.subs@[h as int]@);
                }
                ran.set(h, true);
                if chg {
                    let m = self.subs[h].len();
                    let ghost q_c = q@;
                    let mut t: usize = 0;
                    while t < m
                        invariant
                            t <= m,
                            (h as int) < self.nv().len(),
                            m == self.nv()[h as int].subs.len(),
                            self.nv()[h as int].subs == self.subs@[h as int]@,
                            (h as int) < self.subs@.len(),
                            q@ =~= q_c + self.nv()[h as int].subs.subrange(0, t as int),
                        decreases m - t,
                    {
                        let x = self.subs[h][t];
                        q.push(x);
                        proof {
                            assert(q@ =~= q_c + self.nv()[h as int].subs.subrange(0, t + 1));
                        }
                        t += 1;
                    }
                    proof {
                        assert(self.nv()[h as int].subs.subrange(
                            0,
                            self.nv()[h as int].subs.len() as int,
                        ) =~= self.nv()[h as int].subs);
                        assert(q@ =~= q_c + self.nv()[h as int].subs);
                    }
                }
                qi += 1;
                proof {
                    let sr = run_step(nv_b, h);
                    assert(self.nv() == sr.0);
                    assert(ran@ =~= ran_b.update(h as int, true));
                    let q2 = if sr.1 {
                        tail.drop_first() + sr.0[h as int].subs
                    } else {
                        tail.drop_first()
                    };
                    assert(wave(nv_b, tail, ran_b) == wave(sr.0, q2, ran_b.update(h as int, true)));
                    assert(q@.subrange(qi as int, q@.len() as int) =~= q2);
                }
            } else {
                qi += 1;
                proof {
                    assert(wave(nv_b, tail, ran_b) == wave(nv_b, tail.drop_first(), ran_b));
                }
            }
        }
        proof {
            assert(q@.subrange(qi as int, q@.len() as int) =~= Seq::<usize>::empty());
        }
    }

    /// Writes a new value into a signal unconditionally, then notifies its
    /// subscribers: the propagation wave completes before this returns.
    pub fn write(&mut self, id: NodeId, v: i64)
        requires
            old(self).inv(),
            old(self).valid_id(id),
            old(self).nv()[id.index as int].kind == NodeKind::Signal,
        ensures
            final(self).inv(),
            final(self).nv() == wave(
                old(self).nv().update(
                    id.index as int,
                    with_value(old(self).nv()[id.index as int], Some(v)),
                ),
                old(self).nv()[id.index as int].subs,
                falses(old(self).nv().len()),
            ),
            forall|j: int| #[trigger] final(self).emits_at(j) == old(self).emits_at(j),
            final(self).emit_log() == old(self).emit_log() + crate::model::wave_emits(
                old(self).nv().update(
                    id.index as int,
                    with_value(old(self).nv()[id.index as int], Some(v)),
                ),
                old(self).nv()[id.index as int].subs,
                falses(old(self).nv().len()),
                old(self).chans(),
            ),
            final(self).id_spec() == old(self).id_spec(),
    {
        let ghost ns0 = self.nv();
        let ix = id.index;
        self.values.set(ix, Some(v));
        let ghost ns1 = self.nv();
        proof {
            assert(ns1 =~~= ns0.update(ix as int, with_value(ns0[ix as int], Some(v))));
            crate::model::lemma_wf_value_runs(ns0, ns1);
        }
        let m = self.subs[ix].len();
        let mut sb: Vec<usize> = Vec::new();
        let mut t: usize = 0;
        while t < m
            invariant
                t <= m,
                (ix as int) < self.nv().len(),
                m == self.nv()[ix as int].subs.len(),
                (ix as int) < self.subs@.len(),
                sb@ =~= self.nv()[ix as int].subs.subrange(0, t as int),
            decreases m - t,
        {
            let x = self.subs[ix][t];
            sb.push(x);
            t += 1;
        }
        proof {
            assert(sb@ =~= ns1[ix as int].subs);
            assert(sb@ =~= ns0[ix as int].subs);
        }
        self.notify(sb);
    }

    /// Reads the value a handle addresses, or nothing when the handle has
    /// gone stale: the recoverable read used by every `try_` operation.
    pub fn try_read(&self, id: NodeId) -> (r: Option<i64>)
        requires
            self.inv(),
        ensures
            r == (if self.valid_id(id) {
                self.nv()[id.index as int].value
            } else {
                None::<i64>
            }),
    {
        let ix = id.index;
        if ix < self.live.len() && self.live[ix] && self.gens[ix] == id.generation {
            self.values[ix]
        } else {
            None
        }
    }

    /// Reads the value a valid handle addresses.  Reading through a stale
    /// handle is a programming error and is excluded by contract; the
    /// recoverable form is `try_read`.
    pub fn read(&self, id: NodeId) -> (r: i64)
        requires
            self.inv(),
            self.valid_id(id),
            self.nv()[id.index as int].value is Some,
        ensures
            Some(r) == self.nv()[id.index as int].value,
    {
        let ix = id.index;
        match self.values[ix] {
            Some(x) => x,
            None => {
                // The contract guarantees a stored value; this arm is proven
                // unreachable.
                proof {
                    assert(false);
                }
                0
            },
        }
    }

    /// Creates a signal holding `initial`.
    pub fn create_signal_node(&mut self, initial: i64) -> (id: NodeId)
        requires
            old(self).inv(),
            old(self).nv().len() < usize::MAX,
        ensures
            final(self).inv(),
            final(self).valid_id(id),
            final(self).nv()[id.index as int].kind == NodeKind::Signal,
            final(self).nv()[id.index as int].value == Some(initial),
            final(self).nv()[id.index as int].subs.len() == 0,
            final(self).nv()[id.index as int].runs == 0,
            final(self).nv()[id.index as int].sources.len() == 0,
            old(self).nv().len() <= final(self).nv().len() <= old(self).nv().len() + 1,
            (id.index as int) < old(self).nv().len() ==> !old(self).nv()[id.index as int].live,
            final(self).emit_log() == old(self).emit_log(),
            forall|j: int|
                0 <= j < old(self).nv().len() && j != id.index as int ==> final(self).nv()[j]
                    == old(self).nv()[j],
            forall|other: NodeId|
                old(self).valid_id(other) ==> final(self).valid_id(other) && other.index
                    != id.index,
            final(self).id_spec() == old(self).id_spec(),
    {
        let idx = self.alloc_node(NodeKind::Signal, Some(initial), None, None);
        let g = self.gens[idx];
        NodeId { index: idx, generation: g }
    }

    /// The runtime's identifier.
    pub fn id(&self) -> (r: RuntimeId)
        ensures
            r == self.id_spec(),
    {
        RuntimeId { id: self.rt_id }
    }

    /// Whether a handle still addresses a live node of this runtime.
    pub fn is_valid(&self, id: NodeId) -> (b: bool)
        requires
            self.inv(),
        ensures
            b == self.valid_id(id),
    {
        id.index < self.live.len() && self.live[id.index] && self.gens[id.index] == id.generation
    }

    /// What kind of node a valid handle addresses.
    pub fn kind_of(&self, id: NodeId) -> (k: NodeKind)
        requires
            self.inv(),
            self.valid_id(id),
        ensures
            k == self.nv()[id.index as int].kind,
    {
        self.kinds[id.index]
    }

    /// How many times a node's computation has run, or nothing for a
    /// stale handle.  Signals never run; a derived node's count starts at
    /// 1, from its eager first evaluation.
    pub fn run_count(&self, id: NodeId) -> (r: Option<u64>)
        requires
            self.inv(),
        ensures
            r == (if self.valid_id(id) {
                Some(self.nv()[id.index as int].runs)
            } else {
                None::<u64>
            }),
    {
        let ix = id.index;
        if ix < self.live.len() && self.live[ix] && self.gens[ix] == id.generation {
            Some(self.runs[ix])
        } else {
            None
        }
    }

    /// Creates a derived node (a memo or an effect) and runs its
    /// computation immediately: eagerly on creation, so the cached value is
    /// available before anything else happens.
    pub(crate) fn create_derived(
        &mut self,
        kind: NodeKind,
        f: Expr,
        emit: Option<futures::channel::mpsc::UnboundedSender<i64>>,
    ) -> (id: NodeId)
        requires
            old(self).inv(),
            old(self).nv().len() < usize::MAX,
            comp_ok(old(self).nv(), f),
            kind != NodeKind::Signal,
        ensures
            final(self).inv(),
            final(self).valid_id(id),
            final(self).nv()[id.index as int].kind == kind,
            final(self).nv()[id.index as int].comp == Some(f),
            final(self).nv()[id.index as int].value == Some(
                eval_val(f, old(self).nv(), None::<i64>),
            ),
            final(self).nv()[id.index as int].runs == 1,
            final(self).nv()[id.index as int].subs.len() == 0,
            forall|y: usize|
                #[trigger] final(self).nv()[id.index as int].sources.contains(y)
                    <==> crate::expr::treads(f).contains(y) && y != id.index,
            forall|j: int|
                0 <= j < old(self).nv().len() && j != id.index as int ==> crate::model::core_same(
                    #[trigger] final(self).nv()[j],
                    old(self).nv()[j],
                ),
            forall|j: int, y: usize|
                0 <= j < old(self).nv().len() && j != id.index as int
                    && (#[trigger] final(self).nv()[j].subs.contains(y)) ==> old(
                    self,
                ).nv()[j].subs.contains(y) || y == id.index,
            forall|j: int, y: usize|
                0 <= j < old(self).nv().len() && j != id.index as int && old(
                    self,
                ).nv()[j].subs.contains(y) ==> (#[trigger] final(self).nv()[j].subs.contains(y)),
            forall|j: int|
                0 <= j < final(self).nv().len() && j != id.index as int
                    ==> ((#[trigger] final(self).nv()[j].subs.contains(id.index))
                    <==> crate::expr::treads(f).contains(j as usize)),
            old(self).nv().len() <= final(self).nv().len() <= old(self).nv().len() + 1,
            final(self).emits_at(id.index as int) == (emit is Some),
            emit matches Some(tx) ==> final(self).emit_channel(id.index as int)
                == crate::stream::sender_channel(tx),
            final(self).emit_log() == old(self).emit_log() + (match emit {
                Some(tx) => seq![
                    (crate::stream::sender_channel(tx), eval_val(f, old(self).nv(), None::<i64>)),
                ],
                None => Seq::empty(),
            }),
            (id.index as int) < old(self).nv().len() ==> !old(self).nv()[id.index as int].live,
            forall|other: NodeId|
                old(self).valid_id(other) ==> final(self).valid_id(other) && other.index
                    != id.index,
            final(self).id_spec() == old(self).id_spec(),
    {
        let ghost ns0 = self.nv();
        let idx = self.alloc_node(kind, None, Some(f), emit);
        let ghost ns1 = self.nv();
        proof {
            crate::model::lemma_comp_ok_rds(ns0, f);
            assert forall|j: int| 0 <= j < ns0.len() && (#[trigger] ns0[j]).live implies ns1[
                j
            ].live && ns1[j].generation == ns0[j].generation by {
                assert(j != idx as int);
            }
            crate::model::lemma_comp_ok_extend(f, ns0, ns1);
            assert(runnable(ns1, idx));
        }
        let _ = self.run_node(idx);
        proof {
            lemma_run_step_full(ns1, idx);
            assert forall|y: usize| crate::expr::rds(f).contains(y) implies val_at(ns1, y)
                == val_at(ns0, y) by {
                assert((y as int) < ns0.len() && ns0[y as int].live);
                assert(y != idx);
            }
            lemma_eval_val_frame(f, ns1, ns0, None::<i64>);
            let r = self.nv();
            let ii = idx as int;
            assert(ns1[ii].sources =~= Seq::<usize>::empty());
            let nsd = run_detach(ns1, idx);
            assert(nsd == ns1.update(ii, with_sources(ns1[ii], Seq::empty())));
            lemma_eval_edges_core(nsd, f, idx);
            assert forall|j: int, y: usize|
                0 <= j < ns0.len() && j != ii && ns0[j].subs.contains(y) implies r[j].subs.contains(
                y,
            ) by {
                assert(ns1[j] == ns0[j]);
                assert(nsd[j].subs == ns1[j].subs);
                assert(eval_edges(nsd, f, idx)[j].subs.contains(y));
                assert(r[j].subs == eval_edges(nsd, f, idx)[j].subs);
            }
            assert forall|j: int| 0 <= j < r.len() && j != ii implies ((#[trigger] r[
                j
            ].subs.contains(idx)) <==> crate::expr::treads(f).contains(j as usize)) by {
                assert(r[j].subs.contains(ii as usize) <==> r[ii].sources.contains(j as usize));
                assert(ii as usize == idx);
                assert((j as usize) as int == j);
                assert(r[ii].sources.contains(j as usize) <==> crate::expr::treads(f).contains(
                    j as usize,
                ) && (j as usize) != idx);
            }
        }
        let g = self.gens[idx];
        NodeId { index: idx, generation: g }
    }

    /// Disposes the node a handle addresses: detaches it from the graph in
    /// both directions, drops its cached value and computation, and bumps
    /// the slot's generation so that every remaining handle to it is
    /// stale.  Disposing through an already stale handle does nothing.
    pub fn dispose_node(&mut self, id: NodeId)
        requires
            old(self).inv(),
        ensures
            final(self).inv(),
            final(self).nv() == (if old(self).valid_id(id) {
                dispose_step(old(self).nv(), id.index)
            } else {
                old(self).nv()
            }),
            !final(self).valid_id(id),
            forall|o: NodeId| !old(self).valid_id(o) ==> !final(self).valid_id(o),
            forall|o: NodeId|
                old(self).valid_id(o) && o.index != id.index ==> final(self).valid_id(o),
            final(self).emit_log() == old(self).emit_log(),
            forall|j: int|
                j != id.index as int ==> #[trigger] final(self).emits_at(j) == old(self).emits_at(
                    j,
                ) && #[trigger] final(self).emit_channel(j) == old(self).emit_channel(j),
            final(self).id_spec() == old(self).id_spec(),
    {
        let ix = id.index;
        if !(ix < self.live.len() && self.live[ix] && self.gens[ix] == id.generation) {
            return ;
        }
        let ghost ns0 = self.nv();
        let mut sv: Vec<usize> = Vec::new();
        self.srcs.set_and_swap(ix, &mut sv);
        let ghost ns_a = self.nv();
        proof {
            assert(ns_a =~~= ns0.update(
                ix as int,
                with_sources(ns0[ix as int], Seq::<usize>::empty()),
            ));
            assert(sv@.subrange(0, sv@.len() as int) =~= sv@);
        }
        let mut k: usize = 0;
        while k < sv.len()
            invariant
                self.arrays_ok(),
                ns0 == old(self).nv(),
                wf(ns0),
                old(self).valid_id(id),
                ix == id.index,
                (ix as int) < ns0.len(),
                ns0.len() <= usize::MAX,
                sv@ == ns0[ix as int].sources,
                ns_a == ns0.update(ix as int, with_sources(ns0[ix as int], Seq::<usize>::empty())),
                self.nv().len() == ns0.len(),
                k <= sv@.len(),
                detach_rec(ns_a, ix, sv@) == detach_rec(
                    self.nv(),
                    ix,
                    sv@.subrange(k as int, sv@.len() as int),
                ),
                self.emits@ == old(self).emits@,
                self.emitted == old(self).emitted,
                self.id_spec() == old(self).id_spec(),
            decreases sv@.len() - k,
        {
            let ghost nv_b = self.nv();
            let ghost q = sv@.subrange(k as int, sv@.len() as int);
            let s = sv[k];
            proof {
                assert(q[0] == s);
                assert(q.drop_first() =~= sv@.subrange(k + 1, sv@.len() as int));
            }
            if s < self.live.len() {
                remove_elem(&mut self.subs[s], ix);
                proof {
                    assert(self.nv() =~~= nv_b.update(
                        s as int,
                        with_subs(nv_b[s as int], remove_first(nv_b[s as int].subs, ix)),
                    ));
                }
            }
            k += 1;
        }
        proof {
            assert(sv@.subrange(sv@.len() as int, sv@.len() as int) =~= Seq::<usize>::empty());
            assert(self.nv() == detach_rec(ns_a, ix, sv@));
            assert(self.nv() == run_detach(ns0, ix));
            lemma_run_detach_wf(ns0, ix);
        }
        let ghost ns1 = self.nv();
        let mut bv: Vec<usize> = Vec::new();
        self.subs.set_and_swap(ix, &mut bv);
        let ghost ns_c = self.nv();
        proof {
            assert(bv@ == ns1[ix as int].subs);
            assert(ns_c =~~= ns1.update(ix as int, with_subs(ns1[ix as int], Seq::<usize>::empty())));
            assert(bv@.subrange(0, bv@.len() as int) =~= bv@);
        }
        let mut k2: usize = 0;
        while k2 < bv.len()
            invariant
                self.arrays_ok(),
                ns0 == old(self).nv(),
                wf(ns0),
                wf(ns1),
                ns1 == run_detach(ns0, ix),
                old(self).valid_id(id),
                ix == id.index,
                (ix as int) < ns1.len(),
                ns1.len() <= usize::MAX,
                ns1.len() == ns0.len(),
                bv@ == ns1[ix as int].subs,
                ns_c == ns1.update(ix as int, with_subs(ns1[ix as int], Seq::<usize>::empty())),
                self.nv().len() == ns1.len(),
                k2 <= bv@.len(),
                detach_subs_rec(ns_c, ix, bv@) == detach_subs_rec(
                    self.nv(),
                    ix,
                    bv@.subrange(k2 as int, bv@.len() as int),
                ),
                self.emits@ == old(self).emits@,
                self.emitted == old(self).emitted,
                self.id_spec() == old(self).id_spec(),
            decreases bv@.len() - k2,
        {
            let ghost nv_b = self.nv();
            let ghost q = bv@.subrange(k2 as int, bv@.len() as int);
            let s = bv[k2];
            proof {
                assert(q[0] == s);
                assert(q.drop_first() =~= bv@.subrange(k2 + 1, bv@.len() as int));
            }
            if s < self.live.len() {
                remove_elem(&mut self.srcs[s], ix);
                proof {
                    assert(self.nv() =~~= nv_b.update(
                        s as int,
                        with_sources(nv_b[s as int], remove_first(nv_b[s as int].sources, ix)),
                    ));
                }
            }
            k2 += 1;
        }
        proof {
            assert(bv@.subrange(bv@.len() as int, bv@.len() as int) =~= Seq::<usize>::empty());
            assert(self.nv() == detach_subs_rec(ns_c, ix, bv@));
        }
        let ghost ns_d = self.nv();
        proof {
            crate::model::lemma_wf_edges(ns1, ix as int);
            crate::model::lemma_detach_subs_rec(ns_c, ix, bv@);
            crate::model::lemma_run_detach_wf(ns0, ix);
            assert(ns_d[ix as int].live);
            assert(self.live@[ix as int]);
            assert forall|k3: int| 0 <= k3 < self.free@.len() implies self.free@[k3] != ix by {
                assert(!self.live@[self.free@[k3] as int]);
            }
        }
        let ghost free0 = self.free@;
        self.live.set(ix, false);
        let g = self.gens[ix];
        if g < u64::MAX {
            self.gens.set(ix, g + 1);
            self.free.push(ix);
            proof {
                assert forall|a: int, b: int|
                    0 <= a < b < self.free@.len() implies self.free@[a] != self.free@[b] by {
                    if b == free0.len() as int {
                        assert(self.free@[a] == free0[a]);
                    } else {
                        assert(self.free@[a] == free0[a] && self.free@[b] == free0[b]);
                    }
                }
            }
        }
        self.values.set(ix, None);
        self.comps.set(ix, None);
        self.emits.set(ix, None);
        proof {
            crate::model::lemma_wf_edges(ns1, ix as int);
            crate::model::lemma_detach_subs_rec(ns_c, ix, bv@);
            crate::model::lemma_detach_subs_rec(ns1, ix, bv@);
            let d2 = detach_subs_rec(ns1, ix, bv@);
            let r_spec = dispose_step(ns0, ix);
            assert(r_spec == d2.update(ix as int, dead_node(d2[ix as int])));
            if bv@.contains(ix) {
                let m = choose|m: int| 0 <= m < bv@.len() && bv@[m] == ix;
                assert((ns1[ix as int].subs[m] as int) != ix as int);
                assert(false);
            }
            assert(d2[ix as int] == ns1[ix as int]);
            assert forall|j: int| 0 <= j < ns0.len() implies self.nv()[j] == r_spec[j] by {
                if j == ix as int {
                    assert(self.nv()[j].subs =~= Seq::<usize>::empty());
                    assert(self.nv()[j].sources =~= Seq::<usize>::empty());
                    assert(dead_node(d2[j]).subs =~= Seq::<usize>::empty());
                    assert(dead_node(d2[j]).sources =~= Seq::<usize>::empty());
                } else {
                    assert(ns_d[j] == detach_subs_rec(ns_c, ix, bv@)[j]);
                    assert(ns_c[j] == ns1[j]);
                    if bv@.contains(j as usize) {
                        assert(ns_d[j].sources == remove_first(ns_c[j].sources, ix));
                        assert(d2[j].sources == remove_first(ns1[j].sources, ix));
                    }
                    assert(ns_d[j] == d2[j]);
                    assert(self.nv()[j] == ns_d[j]);
                }
            }
            assert(self.nv() =~~= dispose_step(ns0, ix));
            lemma_dispose_wf(ns0, ix);
            assert forall|k3: int|
                0 <= k3 < self.free@.len() implies (self.free@[k3] as int) < self.live@.len()
                && !self.live@[self.free@[k3] as int] by {}
            assert forall|o: NodeId| !old(self).valid_id(o) implies !self.valid_id(o) by {
                if (o.index as int) < ns0.len() && o.index != ix {
                    assert(crate::model::core_same(self.nv()[o.index as int], ns0[o.index as int]));
                }
            }
        }
    }

    /// Appending a fresh edgeless node keeps the graph well formed.
    #[verifier::rlimit(30)]
    proof fn lemma_push_wf(&self, ns0: Seq<NodeV>, n: NodeV)
        requires
            wf(ns0),
            ns0.len() < usize::MAX,
            self.nv() == ns0.push(n),
            n.sources.len() == 0,
            n.subs.len() == 0,
            n.live,
            n.kind == NodeKind::Signal <==> n.comp is None,
        ensures
            wf(self.nv()),
    {
        let r = self.nv();
        let idx = ns0.len() as int;
        assert forall|i: int| 0 <= i < r.len() implies edge_list_ok(r, #[trigger] r[i].subs, i)
            && edge_list_ok(r, r[i].sources, i) by {
            if i != idx {
                assert(edge_list_ok(ns0, ns0[i].subs, i));
                assert(edge_list_ok(ns0, ns0[i].sources, i));
            }
        }
        assert forall|i: int, j: int|
            0 <= i < r.len() && 0 <= j < r.len() implies ((#[trigger] r[i].subs.contains(
            j as usize,
        )) <==> r[j].sources.contains(i as usize)) by {
            if i < idx && j < idx {
                assert(ns0[i].subs.contains(j as usize) <==> ns0[j].sources.contains(i as usize));
            } else if i == idx {
                assert(r[i].subs.len() == 0);
                if j < idx && r[j].sources.contains(i as usize) {
                    crate::model::lemma_wf_edges(ns0, j);
                    assert(r[j].sources == ns0[j].sources);
                    let k = choose|k: int|
                        0 <= k < ns0[j].sources.len() && ns0[j].sources[k] == i as usize;
                    assert((ns0[j].sources[k] as int) < ns0.len());
                    assert((i as usize) as int == i);
                    assert(false);
                }
            } else {
                assert(r[j].sources.len() == 0);
                if i < idx && r[i].subs.contains(j as usize) {
                    crate::model::lemma_wf_edges(ns0, i);
                    assert(r[i].subs == ns0[i].subs);
                    let k = choose|k: int|
                        0 <= k < ns0[i].subs.len() && ns0[i].subs[k] == j as usize;
                    assert((ns0[i].subs[k] as int) < ns0.len());
                    assert((j as usize) as int == j);
                    assert(false);
                }
            }
        }
    }
}

} // verus!
