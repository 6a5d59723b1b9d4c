//! The mathematical model of the propagation algorithm.
//!
//! A runtime's node arena is modelled as a `Seq<NodeV>`.  Running one node
//! (`run_step`) detaches it from its old sources, evaluates its computation
//! while recording the edges the evaluation discovers, and stores the new
//! value.  One propagation wave (`wave`) processes a queue of candidate
//! nodes breadth-first, running each at most once, and appends a node's
//! subscribers to the queue only when that node's value actually changed.

use vstd::prelude::*;
use crate::expr::{comp_ok, eval_val, rds, treads, val_at, Expr};
use crate::node::{NodeKind, NodeV};

verus! {

/// `s` holds no element twice.
pub open spec fn nodup(s: Seq<usize>) -> bool {
    forall|a: int, b: int| 0 <= a < b < s.len() ==> s[a] != s[b]
}

/// An edge list of node `i`: in range, no duplicates, only live targets,
/// and never `i` itself.
pub open spec fn edge_list_ok(ns: Seq<NodeV>, s: Seq<usize>, i: int) -> bool {
    nodup(s) && forall|k: int|
        0 <= k < s.len() ==> (s[k] as int) < ns.len() && ns[s[k] as int].live && (s[k] as int)
            != i
}

/// The graph invariant: edge lists are well formed, dead slots carry no
/// edges, the source/subscriber relation is bidirectionally consistent, and
/// exactly the derived nodes carry a computation (signals have none and no
/// sources).
pub open spec fn wf(ns: Seq<NodeV>) -> bool {
    &&& forall|i: int|
        0 <= i < ns.len() ==> edge_list_ok(ns, #[trigger] ns[i].subs, i) && edge_list_ok(
            ns,
            ns[i].sources,
            i,
        )
    &&& forall|i: int|
        0 <= i < ns.len() && !(#[trigger] ns[i]).live ==> ns[i].subs.len() == 0
            && ns[i].sources.len() == 0
    &&& forall|i: int, j: int|
        0 <= i < ns.len() && 0 <= j < ns.len() ==> ((#[trigger] ns[i].subs.contains(j as usize))
            <==> ns[j].sources.contains(i as usize))
    &&& forall|i: int|
        0 <= i < ns.len() && (#[trigger] ns[i]).live ==> (ns[i].kind == NodeKind::Signal <==> ns[
            i
        ].comp is None)
    &&& forall|i: int|
        0 <= i < ns.len() && (#[trigger] ns[i]).kind == NodeKind::Signal ==> ns[
            i
        ].sources.len() == 0
}

/// Both edge lists of a well-formed node are well formed.
pub proof fn lemma_wf_edges(ns: Seq<NodeV>, j: int)
    requires
        wf(ns),
        0 <= j < ns.len(),
    ensures
        edge_list_ok(ns, ns[j].subs, j),
        edge_list_ok(ns, ns[j].sources, j),
{
    assert(edge_list_ok(ns, ns[j].subs, j) && edge_list_ok(ns, ns[j].sources, j));
}

/// The fields of a node that edges do not touch: everything except its
/// `sources` and `subs` lists.
pub open spec fn core_same(a: NodeV, b: NodeV) -> bool {
    a.live == b.live && a.generation == b.generation && a.kind == b.kind && a.value == b.value
        && a.comp == b.comp && a.runs == b.runs
}

pub open spec fn with_subs(n: NodeV, s: Seq<usize>) -> NodeV {
    NodeV {
        live: n.live,
        generation: n.generation,
        kind: n.kind,
        value: n.value,
        comp: n.comp,
        sources: n.sources,
        subs: s,
        runs: n.runs,
    }
}

pub open spec fn with_sources(n: NodeV, s: Seq<usize>) -> NodeV {
    NodeV {
        live: n.live,
        generation: n.generation,
        kind: n.kind,
        value: n.value,
        comp: n.comp,
        sources: s,
        subs: n.subs,
        runs: n.runs,
    }
}

pub open spec fn with_value(n: NodeV, v: Option<i64>) -> NodeV {
    NodeV {
        live: n.live,
        generation: n.generation,
        kind: n.kind,
        value: v,
        comp: n.comp,
        sources: n.sources,
        subs: n.subs,
        runs: n.runs,
    }
}

/// The run counter saturates at its maximum instead of wrapping.
pub open spec fn bump(r: u64) -> u64 {
    if r < u64::MAX {
        (r + 1) as u64
    } else {
        r
    }
}

pub open spec fn with_ran(n: NodeV, v: Option<i64>) -> NodeV {
    NodeV {
        live: n.live,
        generation: n.generation,
        kind: n.kind,
        value: v,
        comp: n.comp,
        sources: n.sources,
        subs: n.subs,
        runs: bump(n.runs),
    }
}

/// Removes the first occurrence of `x` from `s`, or leaves `s` unchanged.
pub open spec fn remove_first(s: Seq<usize>, x: usize) -> Seq<usize>
    decreases s.len(),
{
    if s.len() == 0 {
        s
    } else if s[0] == x {
        s.drop_first()
    } else {
        seq![s[0]] + remove_first(s.drop_first(), x)
    }
}

/// Detaches node `h` from the subscriber list of each node in `srcs`.
pub open spec fn detach_rec(ns: Seq<NodeV>, h: usize, srcs: Seq<usize>) -> Seq<NodeV>
    decreases srcs.len(),
{
    if srcs.len() == 0 {
        ns
    } else {
        let s = srcs[0];
        let ns1 = if (s as int) < ns.len() {
            ns.update(s as int, with_subs(ns[s as int], remove_first(ns[s as int].subs, h)))
        } else {
            ns
        };
        detach_rec(ns1, h, srcs.drop_first())
    }
}

/// Clears node `h`'s source list and removes `h` from its old sources'
/// subscriber lists: the first phase of a re-run, which forgets the edges
/// of the previous run so that evaluation can rediscover the current ones.
pub open spec fn run_detach(ns: Seq<NodeV>, h: usize) -> Seq<NodeV> {
    if (h as int) < ns.len() {
        detach_rec(
            ns.update(h as int, with_sources(ns[h as int], Seq::empty())),
            h,
            ns[h as int].sources,
        )
    } else {
        ns
    }
}

/// Records the dependency edge "`me` subscribes to `s`", unless it is
/// already recorded.  A node never subscribes to itself.
pub open spec fn add_edge(ns: Seq<NodeV>, s: usize, me: usize) -> Seq<NodeV> {
    if (s as int) < ns.len() && (me as int) < ns.len() && s != me && !ns[s as int].subs.contains(
        me,
    ) {
        ns.update(s as int, with_subs(ns[s as int], ns[s as int].subs.push(me))).update(
            me as int,
            with_sources(ns[me as int], ns[me as int].sources.push(s)),
        )
    } else {
        ns
    }
}

/// The edges evaluating `e` as node `me` records: one per tracked read, in
/// evaluation order.  Untracked reads record nothing.
pub open spec fn eval_edges(ns: Seq<NodeV>, e: Expr, me: usize) -> Seq<NodeV>
    decreases e,
{
    match e {
        Expr::Const(_) => ns,
        Expr::Read(id) => add_edge(ns, id.index, me),
        Expr::ReadUntracked(_) => ns,
        Expr::PrevOr(_) => ns,
        Expr::Add(l, r) => eval_edges(eval_edges(ns, *l, me), *r, me),
        Expr::Min(l, r) => eval_edges(eval_edges(ns, *l, me), *r, me),
    }
}

/// A node the wave may run: live, carrying a computation whose reads are
/// all still valid.
pub open spec fn runnable(ns: Seq<NodeV>, h: usize) -> bool {
    &&& (h as int) < ns.len()
    &&& ns[h as int].live
    &&& ns[h as int].comp matches Some(c) && comp_ok(ns, c)
}

/// One re-run of node `h`: detach from the old sources, evaluate the
/// computation (receiving the previous cached value, absent only before the
/// first run) while recording the edges it reads, then store the new value
/// unconditionally and count the invocation.  The second component says
/// whether the new value differs from the previous one: the single bit that
/// decides whether the change propagates further.
pub open spec fn run_step(ns: Seq<NodeV>, h: usize) -> (Seq<NodeV>, bool) {
    if runnable(ns, h) {
        let c = ns[h as int].comp->Some_0;
        let prev = ns[h as int].value;
        let ns1 = run_detach(ns, h);
        let v = eval_val(c, ns1, prev);
        let ns2 = eval_edges(ns1, c, h);
        let ns3 = ns2.update(h as int, with_ran(ns2[h as int], Some(v)));
        (ns3, prev != Some(v))
    } else {
        (ns, false)
    }
}

/// How many entries of `ran` are still false: the number of nodes the wave
/// may still run.
pub open spec fn unran(r: Seq<bool>) -> nat
    decreases r.len(),
{
    if r.len() == 0 {
        0
    } else {
        (if r[0] {
            0nat
        } else {
            1nat
        }) + unran(r.drop_first())
    }
}

pub open spec fn falses(n: nat) -> Seq<bool> {
    Seq::new(n, |i: int| false)
}

pub proof fn lemma_unran_update(r: Seq<bool>, i: int)
    requires
        0 <= i < r.len(),
        !r[i],
    ensures
        unran(r.update(i, true)) + 1 == unran(r),
    decreases r.len(),
{
    if i == 0 {
        assert(r.update(0, true).drop_first() =~= r.drop_first());
    } else {
        assert(r.update(i, true).drop_first() =~= r.drop_first().update(i - 1, true));
        lemma_unran_update(r.drop_first(), i - 1);
    }
}

/// One propagation wave.  The queue is processed in order; a node runs at
/// most once per wave (`ran` is the per-wave "already run" set); after a
/// run that changed the node's value, its subscribers are appended to the
/// queue.  A queue entry that was already run, or that is no longer
/// runnable (for instance disposed while the wave was in flight), is
/// skipped.
pub open spec fn wave(ns: Seq<NodeV>, q: Seq<usize>, ran: Seq<bool>) -> Seq<NodeV>
    decreases unran(ran), q.len(),
    via wave_decreases
{
    if q.len() == 0 {
        ns
    } else {
        let h = q[0];
        if (h as int) < ran.len() && !ran[h as int] && runnable(ns, h) {
            let sr = run_step(ns, h);
            let q2 = if sr.1 {
                q.drop_first() + sr.0[h as int].subs
            } else {
                q.drop_first()
            };
            wave(sr.0, q2, ran.update(h as int, true))
        } else {
            wave(ns, q.drop_first(), ran)
        }
    }
}

#[via_fn]
proof fn wave_decreases(ns: Seq<NodeV>, q: Seq<usize>, ran: Seq<bool>) {
    if q.len() > 0 {
        let h = q[0];
        if (h as int) < ran.len() && !ran[h as int] && runnable(ns, h) {
            lemma_unran_update(ran, h as int);
        }
    }
}

/// The values one wave publishes into streams: one entry per run of an
/// emitting node — its channel and its newly computed value, in run
/// order.  `chans` maps each slot to the channel of its sending half, if
/// any; a wave never changes it.
pub open spec fn wave_emits(
    ns: Seq<NodeV>,
    q: Seq<usize>,
    ran: Seq<bool>,
    chans: Seq<Option<int>>,
) -> Seq<(int, i64)>
    decreases unran(ran), q.len(),
    via wave_emits_decreases
{
    if q.len() == 0 {
        Seq::empty()
    } else {
        let h = q[0];
        if (h as int) < ran.len() && !ran[h as int] && runnable(ns, h) {
            let sr = run_step(ns, h);
            let q2 = if sr.1 {
                q.drop_first() + sr.0[h as int].subs
            } else {
                q.drop_first()
            };
            let here = if (h as int) < chans.len() && chans[h as int] is Some {
                seq![(chans[h as int]->Some_0, sr.0[h as int].value->Some_0)]
            } else {
                Seq::empty()
            };
            here + wave_emits(sr.0, q2, ran.update(h as int, true), chans)
        } else {
            wave_emits(ns, q.drop_first(), ran, chans)
        }
    }
}

#[via_fn]
proof fn wave_emits_decreases(ns: Seq<NodeV>, q: Seq<usize>, ran: Seq<bool>, chans: Seq<Option<int>>) {
    if q.len() > 0 {
        let h = q[0];
        if (h as int) < ran.len() && !ran[h as int] && runnable(ns, h) {
            lemma_unran_update(ran, h as int);
        }
    }
}

pub open spec fn gen_bump(g: u64) -> u64 {
    if g < u64::MAX {
        (g + 1) as u64
    } else {
        g
    }
}

/// A slot after disposal: dead, edgeless, valueless, and under a new
/// generation so that every old handle to it goes stale.
pub open spec fn dead_node(n: NodeV) -> NodeV {
    NodeV {
        live: false,
        generation: gen_bump(n.generation),
        kind: n.kind,
        value: None,
        comp: None,
        sources: Seq::empty(),
        subs: Seq::empty(),
        runs: n.runs,
    }
}

/// Removes `h` from the source list of each node in `subsl`.
pub open spec fn detach_subs_rec(ns: Seq<NodeV>, h: usize, subsl: Seq<usize>) -> Seq<NodeV>
    decreases subsl.len(),
{
    if subsl.len() == 0 {
        ns
    } else {
        let s = subsl[0];
        let ns1 = if (s as int) < ns.len() {
            ns.update(s as int, with_sources(ns[s as int], remove_first(ns[s as int].sources, h)))
        } else {
            ns
        };
        detach_subs_rec(ns1, h, subsl.drop_first())
    }
}

/// Disposing node `h`: detach it from its sources' subscriber lists and
/// from its subscribers' source lists, then mark the slot dead and bump its
/// generation.  Disposing a dead or out-of-range slot changes nothing.
pub open spec fn dispose_step(ns: Seq<NodeV>, h: usize) -> Seq<NodeV> {
    if (h as int) < ns.len() && ns[h as int].live {
        let ns1 = run_detach(ns, h);
        let ns2 = detach_subs_rec(ns1, h, ns1[h as int].subs);
        ns2.update(h as int, dead_node(ns2[h as int]))
    } else {
        ns
    }
}

/// Detaching subscribers touches exactly the source lists of the nodes in
/// `subsl`.
pub proof fn lemma_detach_subs_rec(ns: Seq<NodeV>, h: usize, subsl: Seq<usize>)
    requires
        nodup(subsl),
        ns.len() <= usize::MAX,
    ensures
        detach_subs_rec(ns, h, subsl).len() == ns.len(),
        forall|j: int|
            0 <= j < ns.len() ==> core_same(#[trigger] detach_subs_rec(ns, h, subsl)[j], ns[j]),
        forall|j: int|
            0 <= j < ns.len() ==> detach_subs_rec(ns, h, subsl)[j].subs == ns[j].subs,
        forall|j: int|
            0 <= j < ns.len() && subsl.contains(j as usize) ==> detach_subs_rec(
                ns,
                h,
                subsl,
            )[j].sources == remove_first(ns[j].sources, h),
        forall|j: int|
            0 <= j < ns.len() && !subsl.contains(j as usize) ==> detach_subs_rec(
                ns,
                h,
                subsl,
            )[j].sources == ns[j].sources,
    decreases subsl.len(),
{
    if subsl.len() > 0 {
        let s = subsl[0];
        let t = subsl.drop_first();
        let ns1 = if (s as int) < ns.len() {
            ns.update(s as int, with_sources(ns[s as int], remove_first(ns[s as int].sources, h)))
        } else {
            ns
        };
        assert forall|a: int, b: int| 0 <= a < b < t.len() implies t[a] != t[b] by {
            assert(subsl[a + 1] == t[a] && subsl[b + 1] == t[b]);
        }
        lemma_detach_subs_rec(ns1, h, t);
        if t.contains(s) {
            let k = choose|k: int| 0 <= k < t.len() && t[k] == s;
            assert(subsl[k + 1] == subsl[0]);
            assert(false);
        }
        assert(subsl.contains(s)) by {
            assert(subsl[0] == s);
        }
        assert forall|j: int|
            0 <= j < ns.len() && #[trigger] subsl.contains(j as usize) && j != s implies t.contains(
            j as usize,
        ) by {
            let k = choose|k: int| 0 <= k < subsl.len() && subsl[k] == j as usize;
            if k == 0 {
                assert(s == j as usize);
                assert(j == s as int);
                assert(false);
            } else {
                assert(t[k - 1] == j as usize);
            }
        }
        assert forall|j: int|
            0 <= j < ns.len() && #[trigger] t.contains(j as usize) implies subsl.contains(
            j as usize,
        ) by {
            let k = choose|k: int| 0 <= k < t.len() && t[k] == j as usize;
            assert(subsl[k + 1] == j as usize);
        }
    }
}

/// Disposal keeps the graph invariant; the disposed slot goes dead under a
/// bumped generation; every other node only loses its edges to the disposed
/// node and keeps everything else.
pub proof fn lemma_dispose_wf(ns: Seq<NodeV>, h: usize)
    requires
        wf(ns),
        ns.len() <= usize::MAX,
    ensures
        wf(dispose_step(ns, h)),
        dispose_step(ns, h).len() == ns.len(),
        forall|j: int|
            0 <= j < ns.len() && j != h as int ==> core_same(#[trigger] dispose_step(ns, h)[j], ns[j]),
        (h as int) < ns.len() ==> !dispose_step(ns, h)[h as int].live,
        (h as int) < ns.len() && ns[h as int].live ==> dispose_step(ns, h)[h as int].generation
            == gen_bump(ns[h as int].generation),
        (h as int) < ns.len() && !ns[h as int].live ==> dispose_step(ns, h) == ns,
        forall|j: int, y: usize|
            0 <= j < ns.len() && (#[trigger] dispose_step(ns, h)[j].subs.contains(y)) ==> ns[
                j
            ].subs.contains(y),
        forall|j: int, y: usize|
            0 <= j < ns.len() && (#[trigger] dispose_step(ns, h)[j].sources.contains(y)) ==> ns[
                j
            ].sources.contains(y),
{
    let hi = h as int;
    if hi < ns.len() && ns[hi].live {
        lemma_run_detach_wf(ns, h);
        let ns1 = run_detach(ns, h);
        let subsl = ns1[hi].subs;
        assert(subsl == ns[hi].subs);
        assert(edge_list_ok(ns, ns[hi].subs, hi));
        lemma_detach_subs_rec(ns1, h, subsl);
        let ns2 = detach_subs_rec(ns1, h, subsl);
        let r = dispose_step(ns, h);
        assert(r == ns2.update(hi, dead_node(ns2[hi])));
        if subsl.contains(h) {
            let k = choose|k: int| 0 <= k < subsl.len() && subsl[k] == h;
            assert((ns[hi].subs[k] as int) != hi);
            assert(false);
        }
        assert forall|j: int| 0 <= j < ns.len() implies nodup(#[trigger] ns1[j].sources) by {
            assert(edge_list_ok(ns1, ns1[j].sources, j));
        }
        assert forall|j: int, y: usize|
            0 <= j < ns.len() && (#[trigger] r[j].sources.contains(y)) implies ns[
            j
        ].sources.contains(y) by {
            if j != hi {
                if subsl.contains(j as usize) {
                    lemma_remove_first(ns1[j].sources, h);
                    assert(ns1[j].sources.contains(y));
                }
                assert(ns1[j].sources == ns[j].sources);
            }
        }
        assert forall|i: int| 0 <= i < r.len() implies edge_list_ok(r, #[trigger] r[i].subs, i)
            && edge_list_ok(r, r[i].sources, i) by {
            assert(edge_list_ok(ns1, ns1[i].subs, i));
            assert(edge_list_ok(ns1, ns1[i].sources, i));
            if i != hi {
                assert(r[i].subs == ns1[i].subs);
                if subsl.contains(i as usize) {
                    lemma_remove_first(ns1[i].sources, h);
                }
                assert forall|k: int|
                    0 <= k < r[i].sources.len() implies (r[i].sources[k] as int) < r.len() && r[r[
                    i
                ].sources[k] as int].live && (r[i].sources[k] as int) != i by {
                    assert(r[i].sources.contains(r[i].sources[k]));
                    assert(ns1[i].sources.contains(r[i].sources[k]));
                    let m = choose|m: int|
                        0 <= m < ns1[i].sources.len() && ns1[i].sources[m] == r[i].sources[k];
                    assert((ns1[i].sources[m] as int) < ns1.len() && ns1[ns1[
                        i
                    ].sources[m] as int].live);
                    assert(r[i].sources[k] != h) by {
                        if subsl.contains(i as usize) {
                            lemma_remove_first(ns1[i].sources, h);
                        } else {
                            assert(!ns1[hi].sources.contains(i as usize));
                            assert(!(ns1[i].subs.contains(h)));
                            assert(ns1[i].sources.contains(h) ==> ns1[hi].subs.contains(i as usize));
                            if ns1[i].sources.contains(h) {
                                assert(subsl.contains(i as usize));
                            }
                        }
                    }
                    assert((r[i].sources[k] as int) != hi);
                    assert(r[r[i].sources[k] as int].live == ns1[r[i].sources[k] as int].live);
                }
                assert forall|k: int|
                    0 <= k < r[i].subs.len() implies (r[i].subs[k] as int) < r.len() && r[r[
                    i
                ].subs[k] as int].live && (r[i].subs[k] as int) != i by {
                    assert(ns1[i].subs.contains(ns1[i].subs[k]));
                    assert(r[i].subs[k] != h) by {
                        if ns1[i].subs.contains(h) {
                            assert(ns1[hi].sources.contains(i as usize));
                        }
                    }
                    assert((r[i].subs[k] as int) != hi);
                }
            }
        }
        assert forall|i: int, j: int|
            0 <= i < r.len() && 0 <= j < r.len() implies ((#[trigger] r[i].subs.contains(
            j as usize,
        )) <==> r[j].sources.contains(i as usize)) by {
            assert(ns1[i].subs.contains(j as usize) <==> ns1[j].sources.contains(i as usize));
            assert((j as usize) as int == j);
            assert((i as usize) as int == i);
            if i == hi {
                assert(r[i].subs.len() == 0);
                if j != hi {
                    if subsl.contains(j as usize) {
                        lemma_remove_first(ns1[j].sources, h);
                        assert(!r[j].sources.contains(h));
                    } else {
                        assert(!ns1[hi].subs.contains(j as usize));
                        assert(r[j].sources == ns1[j].sources);
                    }
                }
            } else if j == hi {
                assert(r[j].sources.len() == 0);
                assert(!ns1[i].subs.contains(h) || subsl.contains(i as usize));
                assert(r[i].subs == ns1[i].subs);
                if ns1[i].subs.contains(h) {
                    assert(ns1[hi].sources.contains(i as usize));
                    assert(false);
                }
            } else {
                assert(r[i].subs == ns1[i].subs);
                if subsl.contains(j as usize) {
                    lemma_remove_first(ns1[j].sources, h);
                    assert(r[j].sources.contains(i as usize) <==> ns1[j].sources.contains(
                        i as usize,
                    ));
                } else {
                    assert(r[j].sources == ns1[j].sources);
                }
            }
        }
    }
}

/// The fields a re-run never touches on any node: identity and computation.
pub open spec fn static_same(a: NodeV, b: NodeV) -> bool {
    a.live == b.live && a.generation == b.generation && a.kind == b.kind && a.comp == b.comp
}

pub proof fn lemma_remove_first(s: Seq<usize>, x: usize)
    requires
        nodup(s),
    ensures
        nodup(remove_first(s, x)),
        !remove_first(s, x).contains(x),
        forall|y: usize| remove_first(s, x).contains(y) ==> s.contains(y),
        forall|y: usize| y != x && s.contains(y) ==> remove_first(s, x).contains(y),
        remove_first(s, x).len() <= s.len(),
    decreases s.len(),
{
    let r = remove_first(s, x);
    if s.len() == 0 {
    } else if s[0] == x {
        let t = s.drop_first();
        assert forall|y: usize| t.contains(y) implies s.contains(y) by {
            let k = choose|k: int| 0 <= k < t.len() && t[k] == y;
            assert(s[k + 1] == y);
        }
        assert forall|a: int, b: int| 0 <= a < b < t.len() implies t[a] != t[b] by {
            assert(s[a + 1] == t[a] && s[b + 1] == t[b]);
        }
        if t.contains(x) {
            let k = choose|k: int| 0 <= k < t.len() && t[k] == x;
            assert(s[k + 1] == s[0]);
            assert(false);
        }
        assert forall|y: usize| y != x && s.contains(y) implies t.contains(y) by {
            let k = choose|k: int| 0 <= k < s.len() && s[k] == y;
            assert(t[k - 1] == y);
        }
    } else {
        let t = s.drop_first();
        assert forall|a: int, b: int| 0 <= a < b < t.len() implies t[a] != t[b] by {
            assert(s[a + 1] == t[a] && s[b + 1] == t[b]);
        }
        lemma_remove_first(t, x);
        let rt = remove_first(t, x);
        assert(r == seq![s[0]] + rt);
        assert(r[0] == s[0]);
        assert forall|y: usize| r.contains(y) implies s.contains(y) by {
            let k = choose|k: int| 0 <= k < r.len() && r[k] == y;
            if k == 0 {
                assert(s[0] == y);
            } else {
                assert(rt[k - 1] == y);
                assert(t.contains(y));
                let m = choose|m: int| 0 <= m < t.len() && t[m] == y;
                assert(s[m + 1] == y);
            }
        }
        assert forall|y: usize| y != x && s.contains(y) implies r.contains(y) by {
            let k = choose|k: int| 0 <= k < s.len() && s[k] == y;
            if k == 0 {
                assert(r[0] == y);
            } else {
                assert(t[k - 1] == y);
                assert(t.contains(y));
                assert(rt.contains(y));
                let m = choose|m: int| 0 <= m < rt.len() && rt[m] == y;
                assert(r[m + 1] == y);
            }
        }
        if r.contains(x) {
            let k = choose|k: int| 0 <= k < r.len() && r[k] == x;
            assert(k > 0);
            assert(rt[k - 1] == x);
            assert(false);
        }
        assert forall|a: int, b: int| 0 <= a < b < r.len() implies r[a] != r[b] by {
            if a == 0 {
                assert(r[b] == rt[b - 1]);
                assert(rt.contains(rt[b - 1]));
                if r[0] == rt[b - 1] {
                    assert(t.contains(s[0]));
                    let m = choose|m: int| 0 <= m < t.len() && t[m] == s[0];
                    assert(s[m + 1] == s[0]);
                    assert(false);
                }
            } else {
                assert(r[a] == rt[a - 1] && r[b] == rt[b - 1]);
            }
        }
    }
}

/// Removing at the first occurrence is removing at that index.
pub proof fn lemma_remove_first_at(s: Seq<usize>, x: usize, k: int)
    requires
        0 <= k < s.len(),
        s[k] == x,
        forall|m: int| 0 <= m < k ==> s[m] != x,
    ensures
        remove_first(s, x) == s.remove(k),
    decreases k,
{
    if k == 0 {
        assert(remove_first(s, x) =~= s.remove(0));
    } else {
        let t = s.drop_first();
        assert(t[k - 1] == x);
        lemma_remove_first_at(t, x, k - 1);
        assert(remove_first(s, x) =~= s.remove(k));
    }
}

/// Removing an element that is absent changes nothing.
pub proof fn lemma_remove_first_absent(s: Seq<usize>, x: usize)
    requires
        forall|m: int| 0 <= m < s.len() ==> s[m] != x,
    ensures
        remove_first(s, x) == s,
    decreases s.len(),
{
    if s.len() > 0 {
        lemma_remove_first_absent(s.drop_first(), x);
        assert(remove_first(s, x) =~= s);
    }
}

/// Detaching touches exactly the subscriber lists of the nodes in `srcs`.
pub proof fn lemma_detach_rec(ns: Seq<NodeV>, h: usize, srcs: Seq<usize>)
    requires
        nodup(srcs),
        ns.len() <= usize::MAX,
    ensures
        detach_rec(ns, h, srcs).len() == ns.len(),
        forall|j: int|
            0 <= j < ns.len() ==> core_same(#[trigger] detach_rec(ns, h, srcs)[j], ns[j]),
        forall|j: int| 0 <= j < ns.len() ==> detach_rec(ns, h, srcs)[j].sources == ns[j].sources,
        forall|j: int|
            0 <= j < ns.len() && srcs.contains(j as usize) ==> detach_rec(ns, h, srcs)[j].subs
                == remove_first(ns[j].subs, h),
        forall|j: int|
            0 <= j < ns.len() && !srcs.contains(j as usize) ==> detach_rec(ns, h, srcs)[j].subs
                == ns[j].subs,
    decreases srcs.len(),
{
    if srcs.len() > 0 {
        let s = srcs[0];
        let t = srcs.drop_first();
        let ns1 = if (s as int) < ns.len() {
            ns.update(s as int, with_subs(ns[s as int], remove_first(ns[s as int].subs, h)))
        } else {
            ns
        };
        assert forall|a: int, b: int| 0 <= a < b < t.len() implies t[a] != t[b] by {
            assert(srcs[a + 1] == t[a] && srcs[b + 1] == t[b]);
        }
        lemma_detach_rec(ns1, h, t);
        if t.contains(s) {
            let k = choose|k: int| 0 <= k < t.len() && t[k] == s;
            assert(srcs[k + 1] == srcs[0]);
            assert(false);
        }
        assert(srcs.contains(s)) by {
            assert(srcs[0] == s);
        }
        assert forall|j: int|
            0 <= j < ns.len() && #[trigger] srcs.contains(j as usize) && j != s implies t.contains(
            j as usize,
        ) by {
            let k = choose|k: int| 0 <= k < srcs.len() && srcs[k] == j as usize;
            if k == 0 {
                assert(s == j as usize);
                assert(j == s as int);
                assert(false);
            } else {
                assert(t[k - 1] == j as usize);
            }
        }
        assert forall|j: int| 0 <= j < ns.len() && #[trigger] t.contains(j as usize) implies srcs.contains(
            j as usize,
        ) by {
            let k = choose|k: int| 0 <= k < t.len() && t[k] == j as usize;
            assert(srcs[k + 1] == j as usize);
        }
    }
}

/// A re-run changes the value and run count of the node that ran, and only
/// edge lists elsewhere; it changes nobody's identity or computation.
pub proof fn lemma_run_step_core(ns: Seq<NodeV>, h: usize)
    ensures
        run_step(ns, h).0.len() == ns.len(),
        forall|j: int|
            0 <= j < ns.len() && j != h as int ==> core_same(#[trigger] run_step(ns, h).0[j], ns[j]),
        forall|j: int| 0 <= j < ns.len() ==> static_same(#[trigger] run_step(ns, h).0[j], ns[j]),
{
    if runnable(ns, h) {
        let c = ns[h as int].comp->Some_0;
        let ns1 = run_detach(ns, h);
        lemma_detach_len_core(ns, h);
        lemma_eval_edges_core(ns1, c, h);
    }
}

/// Clearing the sources of `h` plus `lemma_detach_rec`, without any
/// well-formedness assumption: lengths and cores are unchanged.
pub proof fn lemma_detach_len_core(ns: Seq<NodeV>, h: usize)
    ensures
        run_detach(ns, h).len() == ns.len(),
        forall|j: int|
            0 <= j < ns.len() && j != h as int ==> core_same(#[trigger] run_detach(ns, h)[j], ns[j])
                && run_detach(ns, h)[j].sources == ns[j].sources,
        forall|j: int| 0 <= j < ns.len() ==> static_same(#[trigger] run_detach(ns, h)[j], ns[j])
            && run_detach(ns, h)[j].value == ns[j].value && run_detach(ns, h)[j].runs == ns[j].runs,
    decreases ns.len(),
{
    if (h as int) < ns.len() {
        let ns0 = ns.update(h as int, with_sources(ns[h as int], Seq::empty()));
        lemma_detach_rec_nodedup(ns0, h, ns[h as int].sources);
    }
}

/// `lemma_detach_rec` without the duplicate-freedom assumption: only the
/// length, core and sources facts, which hold for any source list.
pub proof fn lemma_detach_rec_nodedup(ns: Seq<NodeV>, h: usize, srcs: Seq<usize>)
    ensures
        detach_rec(ns, h, srcs).len() == ns.len(),
        forall|j: int|
            0 <= j < ns.len() ==> core_same(#[trigger] detach_rec(ns, h, srcs)[j], ns[j]),
        forall|j: int| 0 <= j < ns.len() ==> detach_rec(ns, h, srcs)[j].sources == ns[j].sources,
    decreases srcs.len(),
{
    if srcs.len() > 0 {
        let s = srcs[0];
        let ns1 = if (s as int) < ns.len() {
            ns.update(s as int, with_subs(ns[s as int], remove_first(ns[s as int].subs, h)))
        } else {
            ns
        };
        lemma_detach_rec_nodedup(ns1, h, srcs.drop_first());
    }
}

/// Evaluation records edges and nothing else: every node's core is
/// unchanged, sources grow only at the running node, and a subscriber list
/// gains at most the running node, and only where `e` reads tracked.
pub proof fn lemma_eval_edges_core(ns: Seq<NodeV>, e: Expr, me: usize)
    ensures
        eval_edges(ns, e, me).len() == ns.len(),
        forall|j: int| 0 <= j < ns.len() ==> core_same(#[trigger] eval_edges(ns, e, me)[j], ns[j]),
        forall|j: int|
            0 <= j < ns.len() && j != me as int ==> (#[trigger] eval_edges(ns, e, me)[j]).sources
                == ns[j].sources,
        forall|j: int|
            0 <= j < ns.len() && !treads(e).contains(j as usize) ==> (#[trigger] eval_edges(
                ns,
                e,
                me,
            )[j]).subs == ns[j].subs,
        eval_edges(ns, e, me)[me as int].subs == ns[me as int].subs,
        forall|j: int, y: usize|
            0 <= j < ns.len() && (#[trigger] eval_edges(ns, e, me)[j].subs.contains(y)) ==> ns[
                j
            ].subs.contains(y) || y == me,
        forall|j: int, y: usize|
            0 <= j < ns.len() && ns[j].subs.contains(y) ==> (#[trigger] eval_edges(
                ns,
                e,
                me,
            )[j].subs.contains(y)),
    decreases e,
{
    match e {
        Expr::Read(id) => {
            let s = id.index;
            if (s as int) < ns.len() && (me as int) < ns.len() && s != me && !ns[
                s as int
            ].subs.contains(me) {
                assert(treads(e).contains(s)) by {
                    assert(treads(e)[0] == s);
                }
                lemma_push_contains(ns[s as int].subs, me);
            }
        },
        Expr::Add(l, r) => {
            lemma_eval_edges_core(ns, *l, me);
            let ns1 = eval_edges(ns, *l, me);
            lemma_eval_edges_core(ns1, *r, me);
            lemma_treads_concat(*l, *r, e);
        },
        Expr::Min(l, r) => {
            lemma_eval_edges_core(ns, *l, me);
            let ns1 = eval_edges(ns, *l, me);
            lemma_eval_edges_core(ns1, *r, me);
            lemma_treads_concat(*l, *r, e);
        },
        _ => {},
    }
}

/// Membership in the tracked reads of a two-armed expression comes from one
/// of the arms.
proof fn lemma_treads_concat(l: Expr, r: Expr, e: Expr)
    requires
        treads(e) == treads(l) + treads(r),
    ensures
        forall|y: usize|
            #[trigger] treads(e).contains(y) <==> treads(l).contains(y) || treads(r).contains(y),
{
    assert forall|y: usize|
        #[trigger] treads(e).contains(y) <==> treads(l).contains(y) || treads(r).contains(
            y,
        ) by {
        if treads(e).contains(y) {
            let k = choose|k: int| 0 <= k < treads(e).len() && treads(e)[k] == y;
            if k < treads(l).len() {
                assert(treads(l)[k] == y);
            } else {
                assert(treads(r)[k - treads(l).len()] == y);
            }
        }
        if treads(l).contains(y) {
            let k = choose|k: int| 0 <= k < treads(l).len() && treads(l)[k] == y;
            assert(treads(e)[k] == y);
        }
        if treads(r).contains(y) {
            let k = choose|k: int| 0 <= k < treads(r).len() && treads(r)[k] == y;
            assert(treads(e)[k + treads(l).len()] == y);
        }
    }
}

/// What an expression evaluates to depends only on the values of the nodes
/// it reads, and on the previous value handed to it.
pub proof fn lemma_eval_val_frame(e: Expr, a: Seq<NodeV>, b: Seq<NodeV>, prev: Option<i64>)
    requires
        forall|y: usize| rds(e).contains(y) ==> val_at(a, y) == val_at(b, y),
    ensures
        eval_val(e, a, prev) == eval_val(e, b, prev),
    decreases e,
{
    match e {
        Expr::Read(id) => {
            assert(rds(e).contains(id.index)) by {
                assert(rds(e)[0] == id.index);
            }
        },
        Expr::ReadUntracked(id) => {
            assert(rds(e).contains(id.index)) by {
                assert(rds(e)[0] == id.index);
            }
        },
        Expr::Add(l, r) => {
            lemma_rds_concat(*l, *r, e);
            lemma_eval_val_frame(*l, a, b, prev);
            lemma_eval_val_frame(*r, a, b, prev);
        },
        Expr::Min(l, r) => {
            lemma_rds_concat(*l, *r, e);
            lemma_eval_val_frame(*l, a, b, prev);
            lemma_eval_val_frame(*r, a, b, prev);
        },
        _ => {},
    }
}

proof fn lemma_push_contains(l: Seq<usize>, x: usize)
    ensures
        forall|y: usize| #[trigger] l.push(x).contains(y) <==> l.contains(y) || y == x,
{
    assert forall|y: usize| #[trigger] l.push(x).contains(y) <==> l.contains(y) || y == x by {
        if l.push(x).contains(y) {
            let k = choose|k: int| 0 <= k < l.push(x).len() && l.push(x)[k] == y;
            if k < l.len() {
                assert(l[k] == y);
            }
        }
        if l.contains(y) {
            let k = choose|k: int| 0 <= k < l.len() && l[k] == y;
            assert(l.push(x)[k] == y);
        }
        assert(l.push(x)[l.len() as int] == x);
    }
}

/// Whether a computation's reads are still valid depends only on the
/// liveness and generation of the nodes it mentions.
pub proof fn lemma_comp_ok_frame(e: Expr, a: Seq<NodeV>, b: Seq<NodeV>)
    requires
        a.len() == b.len(),
        forall|j: int|
            0 <= j < a.len() ==> (#[trigger] a[j]).live == b[j].live && a[j].generation
                == b[j].generation,
    ensures
        comp_ok(a, e) == comp_ok(b, e),
    decreases e,
{
    match e {
        Expr::Add(l, r) => {
            lemma_comp_ok_frame(*l, a, b);
            lemma_comp_ok_frame(*r, a, b);
        },
        Expr::Min(l, r) => {
            lemma_comp_ok_frame(*l, a, b);
            lemma_comp_ok_frame(*r, a, b);
        },
        _ => {},
    }
}

/// A computation stays valid when the arena grows or changes outside the
/// nodes it reads: validity mentions only liveness and generations of
/// slots below the old length.
pub proof fn lemma_comp_ok_extend(e: Expr, a: Seq<NodeV>, b: Seq<NodeV>)
    requires
        comp_ok(a, e),
        a.len() <= b.len(),
        forall|j: int|
            0 <= j < a.len() && (#[trigger] a[j]).live ==> b[j].live && b[j].generation
                == a[j].generation,
    ensures
        comp_ok(b, e),
    decreases e,
{
    match e {
        Expr::Add(l, r) => {
            lemma_comp_ok_extend(*l, a, b);
            lemma_comp_ok_extend(*r, a, b);
        },
        Expr::Min(l, r) => {
            lemma_comp_ok_extend(*l, a, b);
            lemma_comp_ok_extend(*r, a, b);
        },
        _ => {},
    }
}

/// Everything a valid computation reads is a live node of the arena.
pub proof fn lemma_comp_ok_rds(ns: Seq<NodeV>, e: Expr)
    requires
        comp_ok(ns, e),
    ensures
        forall|y: usize|
            #[trigger] rds(e).contains(y) ==> (y as int) < ns.len() && ns[y as int].live,
    decreases e,
{
    match e {
        Expr::Read(id) => {
            assert forall|y: usize| #[trigger] rds(e).contains(y) implies (y as int) < ns.len()
                && ns[y as int].live by {
                let k = choose|k: int| 0 <= k < rds(e).len() && rds(e)[k] == y;
                assert(y == id.index);
            }
        },
        Expr::ReadUntracked(id) => {
            assert forall|y: usize| #[trigger] rds(e).contains(y) implies (y as int) < ns.len()
                && ns[y as int].live by {
                let k = choose|k: int| 0 <= k < rds(e).len() && rds(e)[k] == y;
                assert(y == id.index);
            }
        },
        Expr::Add(l, r) => {
            lemma_comp_ok_rds(ns, *l);
            lemma_comp_ok_rds(ns, *r);
            lemma_rds_concat(*l, *r, e);
        },
        Expr::Min(l, r) => {
            lemma_comp_ok_rds(ns, *l);
            lemma_comp_ok_rds(ns, *r);
            lemma_rds_concat(*l, *r, e);
        },
        _ => {
            assert forall|y: usize| #[trigger] rds(e).contains(y) implies (y as int) < ns.len()
                && ns[y as int].live by {
                let k = choose|k: int| 0 <= k < rds(e).len() && rds(e)[k] == y;
            }
        },
    }
}

/// Recording one edge preserves the graph invariant, and changes exactly
/// the subscriber list of the read node and the source list of the reader.
pub proof fn lemma_add_edge_wf(ns: Seq<NodeV>, s: usize, me: usize)
    requires
        wf(ns),
        ns.len() <= usize::MAX,
        (s as int) < ns.len(),
        (me as int) < ns.len(),
        ns[s as int].live,
        ns[me as int].live,
        ns[me as int].comp is Some,
    ensures
        wf(add_edge(ns, s, me)),
        forall|y: usize|
            #[trigger] add_edge(ns, s, me)[me as int].sources.contains(y) <==> ns[
                me as int
            ].sources.contains(y) || (y == s && s != me),
        forall|j: int|
            0 <= j < ns.len() && j != me as int ==> add_edge(ns, s, me)[j].sources == ns[j].sources,
{
    let r = add_edge(ns, s, me);
    let si = s as int;
    let mi = me as int;
    if si < ns.len() && mi < ns.len() && s != me && !ns[si].subs.contains(me) {
        lemma_push_contains(ns[si].subs, me);
        lemma_push_contains(ns[mi].sources, s);
        assert(ns[si].subs.contains(mi as usize) <==> ns[mi].sources.contains(si as usize));
        assert(!ns[mi].sources.contains(s));
        assert(ns[mi].kind != NodeKind::Signal);
        assert forall|i: int| 0 <= i < r.len() implies edge_list_ok(r, #[trigger] r[i].subs, i)
            && edge_list_ok(r, r[i].sources, i) by {
            assert(edge_list_ok(ns, ns[i].subs, i));
            assert(edge_list_ok(ns, ns[i].sources, i));
            if i == si {
                assert forall|a: int, b: int| 0 <= a < b < r[i].subs.len() implies r[i].subs[a]
                    != r[i].subs[b] by {
                    if b == ns[si].subs.len() {
                        assert(r[i].subs[a] == ns[si].subs[a]);
                        assert(ns[si].subs.contains(ns[si].subs[a]));
                    }
                }
            }
            if i == mi {
                assert forall|a: int, b: int| 0 <= a < b < r[i].sources.len() implies r[i].sources[a]
                    != r[i].sources[b] by {
                    if b == ns[mi].sources.len() {
                        assert(r[i].sources[a] == ns[mi].sources[a]);
                        assert(ns[mi].sources.contains(ns[mi].sources[a]));
                    }
                }
            }
        }
        assert forall|i: int, j: int|
            0 <= i < r.len() && 0 <= j < r.len() implies ((#[trigger] r[i].subs.contains(
            j as usize,
        )) <==> r[j].sources.contains(i as usize)) by {
            assert(ns[i].subs.contains(j as usize) <==> ns[j].sources.contains(i as usize));
            assert((j as usize) as int == j);
            assert((i as usize) as int == i);
            if i == si && j == mi {
                assert(r[i].subs.contains(j as usize));
                assert(r[j].sources.contains(i as usize));
            } else if i == si {
                assert(j as usize != me);
                assert(r[j].sources == ns[j].sources);
            } else if j == mi {
                assert(i as usize != s);
                assert(r[i].subs == ns[i].subs);
            }
        }
    } else {
        if si < ns.len() && mi < ns.len() && s != me {
            assert(ns[si].subs.contains(mi as usize) <==> ns[mi].sources.contains(si as usize));
            assert(mi as usize == me && si as usize == s);
            assert(ns[mi].sources.contains(s));
        }
    }
}

/// Evaluation preserves the graph invariant, and the reader's source list
/// ends up holding its old sources plus exactly the tracked reads.
pub proof fn lemma_eval_edges_wf(ns: Seq<NodeV>, e: Expr, me: usize)
    requires
        wf(ns),
        ns.len() <= usize::MAX,
        (me as int) < ns.len(),
        ns[me as int].live,
        ns[me as int].comp is Some,
        comp_ok(ns, e),
    ensures
        wf(eval_edges(ns, e, me)),
        forall|y: usize|
            #[trigger] eval_edges(ns, e, me)[me as int].sources.contains(y) <==> ns[
                me as int
            ].sources.contains(y) || (treads(e).contains(y) && y != me),
        forall|j: int|
            0 <= j < ns.len() && j != me as int ==> eval_edges(ns, e, me)[j].sources == ns[
                j
            ].sources,
    decreases e,
{
    let r = eval_edges(ns, e, me);
    match e {
        Expr::Read(id) => {
            lemma_add_edge_wf(ns, id.index, me);
            assert(treads(e) =~= seq![id.index]);
            assert forall|y: usize| #[trigger] treads(e).contains(y) implies y == id.index by {
                let k = choose|k: int| 0 <= k < treads(e).len() && treads(e)[k] == y;
            }
            assert(treads(e)[0] == id.index);
        },
        Expr::Add(l, r2) => {
            lemma_eval_edges_wf(ns, *l, me);
            let ns1 = eval_edges(ns, *l, me);
            lemma_eval_edges_core(ns, *l, me);
            lemma_comp_ok_frame(*r2, ns, ns1);
            lemma_eval_edges_wf(ns1, *r2, me);
            lemma_treads_concat(*l, *r2, e);
        },
        Expr::Min(l, r2) => {
            lemma_eval_edges_wf(ns, *l, me);
            let ns1 = eval_edges(ns, *l, me);
            lemma_eval_edges_core(ns, *l, me);
            lemma_comp_ok_frame(*r2, ns, ns1);
            lemma_eval_edges_wf(ns1, *r2, me);
            lemma_treads_concat(*l, *r2, e);
        },
        _ => {
            assert(treads(e) =~= Seq::<usize>::empty());
        },
    }
}

/// The invariant does not look at values or run counters.
pub proof fn lemma_wf_value_runs(a: Seq<NodeV>, b: Seq<NodeV>)
    requires
        wf(a),
        b.len() == a.len(),
        forall|j: int|
            0 <= j < a.len() ==> static_same(#[trigger] b[j], a[j]) && b[j].sources == a[j].sources
                && b[j].subs == a[j].subs,
    ensures
        wf(b),
{
    assert forall|i: int| 0 <= i < b.len() implies edge_list_ok(b, #[trigger] b[i].subs, i)
        && edge_list_ok(b, b[i].sources, i) by {
        assert(edge_list_ok(a, a[i].subs, i));
        assert(edge_list_ok(a, a[i].sources, i));
    }
    assert forall|i: int, j: int|
        0 <= i < b.len() && 0 <= j < b.len() implies ((#[trigger] b[i].subs.contains(j as usize))
        <==> b[j].sources.contains(i as usize)) by {
        assert(a[i].subs.contains(j as usize) <==> a[j].sources.contains(i as usize));
    }
}

/// Detaching a node from its sources preserves the invariant; afterwards
/// the node has no sources, keeps its own subscribers, and every other list
/// has lost at most that node.
pub proof fn lemma_run_detach_wf(ns: Seq<NodeV>, h: usize)
    requires
        wf(ns),
        ns.len() <= usize::MAX,
        (h as int) < ns.len(),
    ensures
        wf(run_detach(ns, h)),
        run_detach(ns, h).len() == ns.len(),
        run_detach(ns, h)[h as int].sources == Seq::<usize>::empty(),
        run_detach(ns, h)[h as int].subs == ns[h as int].subs,
        forall|j: int|
            0 <= j < ns.len() ==> core_same(#[trigger] run_detach(ns, h)[j], ns[j]),
        forall|j: int|
            0 <= j < ns.len() && j != h as int ==> run_detach(ns, h)[j].sources == ns[j].sources,
        forall|j: int, y: usize|
            0 <= j < ns.len() && (#[trigger] run_detach(ns, h)[j].subs.contains(y)) ==> ns[
                j
            ].subs.contains(y),
        forall|j: int|
            0 <= j < ns.len() ==> (#[trigger] run_detach(ns, h)[j]).subs == ns[j].subs
                || run_detach(ns, h)[j].subs == remove_first(ns[j].subs, h),
{
    let srcs = ns[h as int].sources;
    let hi = h as int;
    assert(edge_list_ok(ns, ns[hi].sources, hi));
    let ns0 = ns.update(hi, with_sources(ns[hi], Seq::<usize>::empty()));
    lemma_detach_rec(ns0, h, srcs);
    let r = run_detach(ns, h);
    assert(r == detach_rec(ns0, h, srcs));
    if srcs.contains(h) {
        let k = choose|k: int| 0 <= k < srcs.len() && srcs[k] == h;
        assert((srcs[k] as int) != hi);
        assert(false);
    }
    assert(r[hi].subs == ns[hi].subs);
    assert forall|j: int|
        0 <= j < ns.len() && j != hi && !srcs.contains(j as usize) implies r[j].subs == ns[
        j
    ].subs by {}
    assert forall|j: int| 0 <= j < ns.len() implies nodup(#[trigger] ns[j].subs) by {
        assert(edge_list_ok(ns, ns[j].subs, j));
    }
    assert forall|j: int, y: usize|
        0 <= j < ns.len() && (#[trigger] r[j].subs.contains(y)) implies ns[j].subs.contains(y) by {
        if srcs.contains(j as usize) {
            lemma_remove_first(ns[j].subs, h);
        }
    }
    assert forall|i: int| 0 <= i < r.len() implies edge_list_ok(r, #[trigger] r[i].subs, i)
        && edge_list_ok(r, r[i].sources, i) by {
        assert(edge_list_ok(ns, ns[i].subs, i));
        assert(edge_list_ok(ns, ns[i].sources, i));
        if srcs.contains(i as usize) {
            lemma_remove_first(ns[i].subs, h);
            assert forall|k: int| 0 <= k < r[i].subs.len() implies (r[i].subs[k] as int) < r.len()
                && r[r[i].subs[k] as int].live && (r[i].subs[k] as int) != i by {
                assert(r[i].subs.contains(r[i].subs[k]));
                assert(ns[i].subs.contains(r[i].subs[k]));
                let m = choose|m: int| 0 <= m < ns[i].subs.len() && ns[i].subs[m] == r[i].subs[k];
            }
        }
    }
    assert forall|i: int, j: int|
        0 <= i < r.len() && 0 <= j < r.len() implies ((#[trigger] r[i].subs.contains(j as usize))
        <==> r[j].sources.contains(i as usize)) by {
        assert(ns[i].subs.contains(j as usize) <==> ns[j].sources.contains(i as usize));
        assert((j as usize) as int == j);
        assert((i as usize) as int == i);
        if j == hi {
            if srcs.contains(i as usize) {
                lemma_remove_first(ns[i].subs, h);
                assert(!r[i].subs.contains(h));
            } else {
                assert(r[i].subs == ns[i].subs);
                assert(!ns[hi].sources.contains(i as usize) ==> !ns[i].subs.contains(h));
            }
        } else {
            assert(r[j].sources == ns[j].sources);
            if srcs.contains(i as usize) {
                lemma_remove_first(ns[i].subs, h);
                assert(r[i].subs.contains(j as usize) <==> ns[i].subs.contains(j as usize));
            } else {
                assert(r[i].subs == ns[i].subs);
            }
        }
    }
}

/// Everything one re-run does, in one statement: the invariant is kept; the
/// node's value becomes the evaluation of its computation over the previous
/// state; the run is counted; the node's own subscribers are untouched; its
/// sources become exactly the tracked reads; every other node keeps its
/// core, and no subscriber list gains any entry but the node that ran.
pub proof fn lemma_run_step_full(ns: Seq<NodeV>, h: usize)
    requires
        wf(ns),
        ns.len() <= usize::MAX,
        runnable(ns, h),
    ensures
        ({
            let r = run_step(ns, h).0;
            let c = ns[h as int].comp->Some_0;
            let v = eval_val(c, ns, ns[h as int].value);
            &&& wf(r)
            &&& r.len() == ns.len()
            &&& r[h as int].value == Some(v)
            &&& run_step(ns, h).1 == (ns[h as int].value != Some(v))
            &&& r[h as int].runs == bump(ns[h as int].runs)
            &&& r[h as int].subs == ns[h as int].subs
            &&& forall|j: int|
                0 <= j < ns.len() && j != h as int ==> core_same(#[trigger] r[j], ns[j])
            &&& forall|j: int| 0 <= j < ns.len() ==> static_same(#[trigger] r[j], ns[j])
            &&& forall|j: int|
                0 <= j < ns.len() && j != h as int ==> (#[trigger] r[j]).sources == run_detach(
                    ns,
                    h,
                )[j].sources
            &&& forall|y: usize|
                #[trigger] r[h as int].sources.contains(y) <==> treads(c).contains(y) && y != h
            &&& forall|j: int, y: usize|
                0 <= j < ns.len() && (#[trigger] r[j].subs.contains(y)) ==> ns[j].subs.contains(y)
                    || y == h
            &&& forall|j: int|
                0 <= j < ns.len() && !treads(c).contains(j as usize) ==> (#[trigger] r[j]).subs
                    == ns[j].subs || r[j].subs == remove_first(ns[j].subs, h)
        }),
{
    let hi = h as int;
    let c = ns[hi].comp->Some_0;
    let prev = ns[hi].value;
    let ns1 = run_detach(ns, h);
    lemma_run_detach_wf(ns, h);
    lemma_comp_ok_frame(c, ns, ns1);
    assert(eval_val(c, ns1, prev) == eval_val(c, ns, prev)) by {
        assert forall|y: usize| rds(c).contains(y) implies val_at(ns1, y) == val_at(ns, y) by {}
        lemma_eval_val_frame(c, ns1, ns, prev);
    }
    let v = eval_val(c, ns, prev);
    lemma_eval_edges_wf(ns1, c, h);
    lemma_eval_edges_core(ns1, c, h);
    let ns2 = eval_edges(ns1, c, h);
    let ns3 = ns2.update(hi, with_ran(ns2[hi], Some(v)));
    assert(run_step(ns, h).0 == ns3);
    lemma_wf_value_runs(ns2, ns3);
    assert forall|y: usize| #[trigger] ns3[hi].sources.contains(y) implies treads(c).contains(y)
        && y != h by {
        assert(ns2[hi].sources.contains(y));
        assert(!ns1[hi].sources.contains(y));
    }
    assert forall|y: usize| treads(c).contains(y) && y != h implies ns3[hi].sources.contains(
        y,
    ) by {
        assert(ns2[hi].sources.contains(y));
    }
    assert forall|j: int, y: usize|
        0 <= j < ns.len() && (#[trigger] ns3[j].subs.contains(y)) implies ns[j].subs.contains(y)
            || y == h by {
        assert(ns2[j].subs.contains(y));
    }
}

/// Once a node has run in a wave, the rest of the wave leaves its value and
/// run counter alone: a node runs at most once per wave.
pub proof fn lemma_wave_ran_stable(ns: Seq<NodeV>, q: Seq<usize>, ran: Seq<bool>, i: int)
    requires
        0 <= i < ns.len(),
        i < ran.len(),
        ran[i],
    ensures
        wave(ns, q, ran)[i].value == ns[i].value,
        wave(ns, q, ran)[i].runs == ns[i].runs,
    decreases unran(ran), q.len(),
{
    if q.len() > 0 {
        let h = q[0];
        if (h as int) < ran.len() && !ran[h as int] && runnable(ns, h) {
            lemma_unran_update(ran, h as int);
            lemma_run_step_core(ns, h);
            let sr = run_step(ns, h);
            let q2 = if sr.1 {
                q.drop_first() + sr.0[h as int].subs
            } else {
                q.drop_first()
            };
            lemma_wave_ran_stable(sr.0, q2, ran.update(h as int, true), i);
        } else {
            lemma_wave_ran_stable(ns, q.drop_first(), ran, i);
        }
    }
}

proof fn lemma_rds_concat(l: Expr, r: Expr, e: Expr)
    requires
        rds(e) == rds(l) + rds(r),
    ensures
        forall|y: usize|
            #[trigger] rds(e).contains(y) <==> rds(l).contains(y) || rds(r).contains(y),
{
    assert forall|y: usize|
        #[trigger] rds(e).contains(y) <==> rds(l).contains(y) || rds(r).contains(y) by {
        if rds(e).contains(y) {
            let k = choose|k: int| 0 <= k < rds(e).len() && rds(e)[k] == y;
            if k < rds(l).len() {
                assert(rds(l)[k] == y);
            } else {
                assert(rds(r)[k - rds(l).len()] == y);
            }
        }
        if rds(l).contains(y) {
            let k = choose|k: int| 0 <= k < rds(l).len() && rds(l)[k] == y;
            assert(rds(e)[k] == y);
        }
        if rds(r).contains(y) {
            let k = choose|k: int| 0 <= k < rds(r).len() && rds(r)[k] == y;
            assert(rds(e)[k + rds(l).len()] == y);
        }
    }
}

} // verus!
