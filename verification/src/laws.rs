//! The engine's guarantees, stated and proved over the propagation model.
//!
//! Each law speaks about one write into a signal — the wave
//! `wave(ns1, subscribers, falses)` that `Setter::set` performs by its
//! contract — over any graph of the shape the law names.

use vstd::prelude::*;
use crate::expr::{eval_val, treads, val_at, Expr};
use crate::model::{
    falses, lemma_comp_ok_frame, lemma_run_step_full, lemma_wave_ran_stable, lemma_wf_value_runs,
    remove_first, run_step, runnable, wave, wave_emits, wf, with_value,
};
use crate::node::{NodeId, NodeKind, NodeV};

verus! {

/// Writing `v` into signal `s` invokes the computation of any derived
/// subscriber `m` exactly once per wave, whatever other subscribers exist
/// and however the wave continues downstream — and since reads never
/// recompute, however often `m` is read afterwards.
pub proof fn law_single_recomputation_per_wave(ns: Seq<NodeV>, s: usize, m: usize, v: i64)
    requires
        wf(ns),
        ns.len() <= usize::MAX,
        (s as int) < ns.len(),
        (m as int) < ns.len(),
        ns[s as int].live,
        ns[s as int].kind == NodeKind::Signal,
        ns[s as int].subs.contains(m),
        runnable(ns, m),
        ns[m as int].runs < u64::MAX,
    ensures
        ({
            let ns1 = ns.update(s as int, with_value(ns[s as int], Some(v)));
            wave(ns1, ns[s as int].subs, falses(ns.len()))[m as int].runs == ns[m as int].runs + 1
        }),
{
    let ns1 = ns.update(s as int, with_value(ns[s as int], Some(v)));
    lemma_write_step(ns, s, v);
    assert(m != s) by {
        crate::model::lemma_wf_edges(ns, s as int);
        if m == s {
            let k = choose|k: int| 0 <= k < ns[s as int].subs.len() && ns[s as int].subs[k] == m;
            assert((ns[s as int].subs[k] as int) != s as int);
        }
    }
    lemma_wave_runs_member(ns1, ns[s as int].subs, falses(ns.len()), m);
}

/// Any runnable node that stands in a wave's queue and has not yet run
/// in it runs exactly once in that wave, whatever else the wave does.
pub proof fn lemma_wave_runs_member(ns: Seq<NodeV>, q: Seq<usize>, ran: Seq<bool>, m: usize)
    requires
        wf(ns),
        ns.len() <= usize::MAX,
        ran.len() == ns.len(),
        q.contains(m),
        !ran[m as int],
        runnable(ns, m),
        ns[m as int].runs < u64::MAX,
    ensures
        wave(ns, q, ran)[m as int].runs == ns[m as int].runs + 1,
    decreases crate::model::unran(ran), q.len(),
{
    let h = q[0];
    if (h as int) < ran.len() && !ran[h as int] && runnable(ns, h) {
        crate::model::lemma_unran_update(ran, h as int);
        lemma_run_step_full(ns, h);
        let sr = run_step(ns, h);
        let ran2 = ran.update(h as int, true);
        let q2 = if sr.1 {
            q.drop_first() + sr.0[h as int].subs
        } else {
            q.drop_first()
        };
        assert(wave(ns, q, ran) == wave(sr.0, q2, ran2));
        if h == m {
            lemma_wave_ran_stable(sr.0, q2, ran2, m as int);
        } else {
            assert(q2.contains(m)) by {
                let k = choose|k: int| 0 <= k < q.len() && q[k] == m;
                assert(k != 0);
                assert(q.drop_first()[k - 1] == m);
                if sr.1 {
                    assert(q2[k - 1] == m);
                } else {
                    assert(q2[k - 1] == m);
                }
            }
            assert(runnable(sr.0, m)) by {
                lemma_comp_ok_frame(ns[m as int].comp->Some_0, ns, sr.0);
            }
            lemma_wave_runs_member(sr.0, q2, ran2, m);
        }
    } else {
        assert(h != m);
        assert(q.drop_first().contains(m)) by {
            let k = choose|k: int| 0 <= k < q.len() && q[k] == m;
            assert(k != 0);
            assert(q.drop_first()[k - 1] == m);
        }
        lemma_wave_runs_member(ns, q.drop_first(), ran, m);
    }
}

/// Writing a signal keeps the graph well formed and leaves every derived
/// node runnable: only the signal's value changed.
proof fn lemma_write_step(ns: Seq<NodeV>, s: usize, v: i64)
    requires
        wf(ns),
        ns.len() <= usize::MAX,
        (s as int) < ns.len(),
    ensures
        ({
            let ns1 = ns.update(s as int, with_value(ns[s as int], Some(v)));
            &&& wf(ns1)
            &&& ns1.len() == ns.len()
            &&& forall|h: usize| runnable(ns, h) ==> runnable(ns1, h)
        }),
{
    let ns1 = ns.update(s as int, with_value(ns[s as int], Some(v)));
    lemma_wf_value_runs(ns, ns1);
    assert forall|h: usize| runnable(ns, h) implies runnable(ns1, h) by {
        let c = ns[h as int].comp->Some_0;
        lemma_comp_ok_frame(c, ns, ns1);
    }
}

/// Change-gated propagation: with memo `m` the only subscriber of signal
/// `s`, and derived node `e` among `m`'s subscribers, writing `v` into
/// `s` re-runs `e` exactly once if `m`'s recomputation yields a different
/// value, and not at all if it yields an equal one.
pub proof fn law_change_gated_propagation(ns: Seq<NodeV>, s: usize, m: usize, e: usize, v: i64)
    requires
        wf(ns),
        ns.len() <= usize::MAX,
        (s as int) < ns.len(),
        (m as int) < ns.len(),
        (e as int) < ns.len(),
        s != m && s != e && m != e,
        ns[s as int].live,
        ns[s as int].kind == NodeKind::Signal,
        ns[s as int].subs == seq![m],
        ns[m as int].subs.contains(e),
        runnable(ns, m),
        runnable(ns, e),
        ns[e as int].runs < u64::MAX,
    ensures
        ({
            let ns1 = ns.update(s as int, with_value(ns[s as int], Some(v)));
            let c = ns[m as int].comp->Some_0;
            let new = eval_val(c, ns1, ns[m as int].value);
            let res = wave(ns1, ns[s as int].subs, falses(ns.len()));
            &&& (ns[m as int].value == Some(new) ==> res[e as int].runs == ns[e as int].runs)
            &&& (ns[m as int].value != Some(new) ==> res[e as int].runs == ns[e as int].runs + 1)
        }),
{
    let ns1 = ns.update(s as int, with_value(ns[s as int], Some(v)));
    lemma_write_step(ns, s, v);
    let c = ns[m as int].comp->Some_0;
    let new = eval_val(c, ns1, ns[m as int].value);
    let q = ns[s as int].subs;
    let ran0 = falses(ns.len());
    assert(q[0] == m);
    lemma_run_step_full(ns1, m);
    let sr = run_step(ns1, m);
    let ran1 = ran0.update(m as int, true);
    assert(sr.1 == (ns[m as int].value != Some(new)));
    if ns[m as int].value == Some(new) {
        let q2 = q.drop_first();
        assert(wave(ns1, q, ran0) == wave(sr.0, q2, ran1));
        assert(q2.len() == 0);
        assert(wave(sr.0, q2, ran1) == sr.0);
        assert(sr.0[e as int].runs == ns[e as int].runs);
    } else {
        let q2 = q.drop_first() + sr.0[m as int].subs;
        assert(wave(ns1, q, ran0) == wave(sr.0, q2, ran1));
        assert(sr.0[m as int].subs == ns[m as int].subs);
        assert(q2.contains(e)) by {
            let k = choose|k: int|
                0 <= k < ns[m as int].subs.len() && ns[m as int].subs[k] == e;
            assert(q2[k] == e);
        }
        assert(runnable(sr.0, e)) by {
            lemma_comp_ok_frame(ns[e as int].comp->Some_0, ns1, sr.0);
        }
        lemma_wave_runs_member(sr.0, q2, ran1, e);
        assert(sr.0[e as int].runs == ns[e as int].runs);
    }
}

/// Diamond deduplication: signal `s` feeds two memos `m1` and `m2`, and
/// effect `e` subscribes to both.  One write that changes both memos
/// re-runs `e` exactly once, not twice.
pub proof fn law_diamond_dedup(ns: Seq<NodeV>, s: usize, m1: usize, m2: usize, e: usize, v: i64)
    requires
        wf(ns),
        ns.len() <= usize::MAX,
        (s as int) < ns.len(),
        (m1 as int) < ns.len(),
        (m2 as int) < ns.len(),
        (e as int) < ns.len(),
        s != m1 && s != m2 && s != e && m1 != m2 && m1 != e && m2 != e,
        ns[s as int].live,
        ns[s as int].kind == NodeKind::Signal,
        ns[s as int].subs == seq![m1, m2],
        ns[m1 as int].subs.contains(e),
        ns[m2 as int].subs.contains(e),
        runnable(ns, m1),
        runnable(ns, m2),
        runnable(ns, e),
        ns[e as int].runs < u64::MAX,
        ({
            let ns1 = ns.update(s as int, with_value(ns[s as int], Some(v)));
            &&& ns[m1 as int].value != Some(
                eval_val(ns[m1 as int].comp->Some_0, ns1, ns[m1 as int].value),
            )
            &&& ns[m2 as int].value != Some(
                eval_val(ns[m2 as int].comp->Some_0, ns1, ns[m2 as int].value),
            )
        }),
    ensures
        ({
            let ns1 = ns.update(s as int, with_value(ns[s as int], Some(v)));
            wave(ns1, ns[s as int].subs, falses(ns.len()))[e as int].runs == ns[e as int].runs + 1
        }),
{
    let ns1 = ns.update(s as int, with_value(ns[s as int], Some(v)));
    lemma_write_step(ns, s, v);
    let q = ns[s as int].subs;
    let ran0 = falses(ns.len());
    assert(q[0] == m1);
    lemma_run_step_full(ns1, m1);
    let sr1 = run_step(ns1, m1);
    let ran1 = ran0.update(m1 as int, true);
    assert(sr1.1);
    let q2 = q.drop_first() + sr1.0[m1 as int].subs;
    assert(wave(ns1, q, ran0) == wave(sr1.0, q2, ran1));
    assert(sr1.0[m1 as int].subs == ns[m1 as int].subs);
    assert(q2.contains(e)) by {
        let k = choose|k: int| 0 <= k < ns[m1 as int].subs.len() && ns[m1 as int].subs[k] == e;
        assert(q.drop_first().len() == 1);
        assert(q2[1 + k] == e);
    }
    assert(runnable(sr1.0, e)) by {
        lemma_comp_ok_frame(ns[e as int].comp->Some_0, ns1, sr1.0);
    }
    lemma_wave_runs_member(sr1.0, q2, ran1, e);
}


/// The stream bridge publishes one element per actual change: with memo
/// `m` the only subscriber of signal `s`, and an effect `e` — the only
/// subscriber of `m`, publishing into channel `c`, computing one tracked
/// read of `m` — writing `v` into `s` publishes nothing when `m`'s
/// recomputation yields an equal value, and exactly one element, the
/// memo's new value, when it differs.  Together with the write contract's
/// emission equation, this is the library half of the stream guarantee;
/// that the channel delivers what was published is the `futures` crate's
/// own behaviour.
pub proof fn law_stream_emissions(
    ns: Seq<NodeV>,
    chans: Seq<Option<int>>,
    s: usize,
    m: usize,
    e: usize,
    c: int,
    mid: NodeId,
    v: i64,
)
    requires
        wf(ns),
        ns.len() <= usize::MAX,
        (s as int) < ns.len(),
        (m as int) < ns.len(),
        (e as int) < ns.len(),
        s != m && s != e && m != e,
        ns[s as int].live,
        ns[s as int].kind == NodeKind::Signal,
        ns[s as int].subs == seq![m],
        ns[m as int].subs == seq![e],
        ns[e as int].subs.len() == 0,
        runnable(ns, m),
        runnable(ns, e),
        ns[e as int].comp == Some(Expr::Read(mid)),
        mid.index == m,
        !treads(ns[m as int].comp->Some_0).contains(e),
        chans.len() == ns.len(),
        chans[m as int] is None,
        chans[e as int] == Some(c),
    ensures
        ({
            let ns1 = ns.update(s as int, with_value(ns[s as int], Some(v)));
            let cm = ns[m as int].comp->Some_0;
            let new = eval_val(cm, ns1, ns[m as int].value);
            let emitted = wave_emits(ns1, ns[s as int].subs, falses(ns.len()), chans);
            &&& (ns[m as int].value == Some(new) ==> emitted == Seq::<(int, i64)>::empty())
            &&& (ns[m as int].value != Some(new) ==> emitted == seq![(c, new)])
        }),
{
    let ns1 = ns.update(s as int, with_value(ns[s as int], Some(v)));
    lemma_write_step(ns, s, v);
    let cm = ns[m as int].comp->Some_0;
    let new = eval_val(cm, ns1, ns[m as int].value);
    let q = ns[s as int].subs;
    let ran0 = falses(ns.len());
    assert(q[0] == m);
    lemma_run_step_full(ns1, m);
    let sr = run_step(ns1, m);
    let ran1 = ran0.update(m as int, true);
    assert(sr.1 == (ns[m as int].value != Some(new)));
    if ns[m as int].value == Some(new) {
        let q2 = q.drop_first();
        assert(wave_emits(ns1, q, ran0, chans) == wave_emits(sr.0, q2, ran1, chans));
        assert(q2.len() == 0);
        assert(wave_emits(sr.0, q2, ran1, chans) == Seq::<(int, i64)>::empty());
    } else {
        let q2 = q.drop_first() + sr.0[m as int].subs;
        assert(wave_emits(ns1, q, ran0, chans) == wave_emits(sr.0, q2, ran1, chans));
        assert(sr.0[m as int].subs == ns[m as int].subs);
        assert(q2 =~= seq![e]);
        let ce = ns[e as int].comp->Some_0;
        assert(runnable(sr.0, e)) by {
            lemma_comp_ok_frame(ce, ns1, sr.0);
        }
        assert(!ran1[e as int]);
        lemma_run_step_full(sr.0, e);
        let sr2 = run_step(sr.0, e);
        let ran2 = ran1.update(e as int, true);
        let q3 = if sr2.1 {
            q2.drop_first() + sr2.0[e as int].subs
        } else {
            q2.drop_first()
        };
        assert(wave_emits(sr.0, q2, ran1, chans) == seq![(c, sr2.0[e as int].value->Some_0)]
            + wave_emits(sr2.0, q3, ran2, chans));
        // The effect read the memo tracked, so it published the memo's
        // new value.
        assert(sr2.0[e as int].value == Some(eval_val(ce, sr.0, sr.0[e as int].value)));
        assert(eval_val(ce, sr.0, sr.0[e as int].value) == val_at(sr.0, mid.index));
        assert(sr.0[m as int].value == Some(new));
        assert(val_at(sr.0, mid.index) == new);
        assert(sr2.0[e as int].subs == sr.0[e as int].subs);
        assert(sr.0[e as int].subs == ns1[e as int].subs || sr.0[e as int].subs == remove_first(
            ns1[e as int].subs,
            m,
        ));
        assert(sr.0[e as int].subs.len() == 0);
        assert(q3 =~= Seq::<usize>::empty());
        assert(wave_emits(sr2.0, q3, ran2, chans) == Seq::<(int, i64)>::empty());
        assert(wave_emits(ns1, q, ran0, chans) =~= seq![(c, new)]);
    }
}

/// Untracked reads do not subscribe: when node `h` re-runs, a node that
/// `h`'s computation does not read through the tracked path — however
/// often it reads it untracked — gains no subscriber, and `h` does not
/// subscribe to it; so a later change of that node cannot re-run `h`
/// through it.
pub proof fn law_untracked_reads_do_not_subscribe(ns: Seq<NodeV>, h: usize, j: usize)
    requires
        wf(ns),
        ns.len() <= usize::MAX,
        runnable(ns, h),
        (j as int) < ns.len(),
        !treads(ns[h as int].comp->Some_0).contains(j),
    ensures
        ({
            let r = run_step(ns, h).0;
            &&& forall|y: usize|
                #[trigger] r[j as int].subs.contains(y) ==> ns[j as int].subs.contains(y)
            &&& !r[h as int].sources.contains(j)
        }),
{
    lemma_run_step_full(ns, h);
    let r = run_step(ns, h).0;
    let c = ns[h as int].comp->Some_0;
    assert forall|y: usize| #[trigger] r[j as int].subs.contains(y) implies ns[
        j as int
    ].subs.contains(y) by {
        crate::model::lemma_wf_edges(ns, j as int);
        if r[j as int].subs == remove_first(ns[j as int].subs, h) {
            crate::model::lemma_remove_first(ns[j as int].subs, h);
        }
    }
}


} // verus!
