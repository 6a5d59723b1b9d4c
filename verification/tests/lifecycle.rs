use futures::executor::block_on;
use futures::stream::StreamExt;
use reactive_graph::expr::Expr;
use reactive_graph::memo::create_memo;
use reactive_graph::runtime::Runtime;
use reactive_graph::scope::{ScopeId, Scopes};
use reactive_graph::signal::create_signal;

fn setup() -> (Runtime, Scopes, ScopeId) {
    let mut sx = Scopes::new();
    let sc = sx.create_scope(None);
    (Runtime::new(7), sx, sc)
}

#[test]
fn disposal_contract() {
    let (mut rt, mut sx, sc) = setup();
    let (sig, set) = create_signal(&mut rt, &mut sx, sc, 5);
    let m = create_memo(&mut rt, &mut sx, sc, Expr::Read(sig.node_id()));
    assert_eq!(m.try_get(&rt), Some(5));
    m.dispose(&mut rt);
    // The recoverable reads report the stale handle.
    assert_eq!(m.try_get(&rt), None);
    assert_eq!(m.try_get_untracked(&rt), None);
    assert_eq!(m.try_with(&rt, |v| v), None);
    assert_eq!(m.try_with_untracked(&rt, |v| v), None);
    assert_eq!(rt.run_count(m.id), None);
    // The rest of the graph keeps working: the memo was detached.
    set.set(&mut rt, 6);
    assert_eq!(sig.try_get(&rt), Some(6));
}

#[test]
fn slot_reuse_keeps_old_handles_stale() {
    let (mut rt, mut sx, sc) = setup();
    let (sig, _set) = create_signal(&mut rt, &mut sx, sc, 1);
    let m = create_memo(&mut rt, &mut sx, sc, Expr::Read(sig.node_id()));
    m.dispose(&mut rt);
    // The next node reuses the disposed slot under a new generation.
    let m2 = create_memo(&mut rt, &mut sx, sc, Expr::Const(9));
    assert_eq!(m2.id.index, m.id.index);
    assert_ne!(m2.id.generation, m.id.generation);
    assert_eq!(m.try_get(&rt), None);
    assert_eq!(m2.try_get(&rt), Some(9));
}

#[test]
fn scope_disposes_owned_nodes() {
    let (mut rt, mut sx, _root) = setup();
    let outer = sx.create_scope(None);
    let (sig, _set) = create_signal(&mut rt, &mut sx, outer, 3);
    let m = create_memo(&mut rt, &mut sx, outer, Expr::Read(sig.node_id()));
    sx.dispose_scope(&mut rt, outer);
    assert_eq!(sig.try_get(&rt), None);
    assert_eq!(m.try_get(&rt), None);
}

#[test]
fn scope_disposal_recurses_into_children() {
    let (mut rt, mut sx, _root) = setup();
    let parent = sx.create_scope(None);
    let child = sx.create_scope(Some(parent));
    let (sig_p, _a) = create_signal(&mut rt, &mut sx, parent, 1);
    let (sig_c, _b) = create_signal(&mut rt, &mut sx, child, 2);
    let (sig_other, _c) = {
        let other = sx.create_scope(None);
        create_signal(&mut rt, &mut sx, other, 3)
    };
    sx.dispose_scope(&mut rt, parent);
    assert_eq!(sig_p.try_get(&rt), None);
    assert_eq!(sig_c.try_get(&rt), None);
    // A sibling scope's node survives.
    assert_eq!(sig_other.try_get(&rt), Some(3));
}

#[test]
fn memo_to_stream() {
    let (mut rt, mut sx, _root) = setup();
    let sc = sx.create_scope(None);
    let (sig, set) = create_signal(&mut rt, &mut sx, sc, 1);
    let m = create_memo(
        &mut rt,
        &mut sx,
        sc,
        Expr::Add(Box::new(Expr::Read(sig.node_id())), Box::new(Expr::Read(sig.node_id()))),
    );
    let rx = m.to_stream(&mut rt, &mut sx, sc);
    // The stream opens with the current value.
    set.set(&mut rt, 2); // changes the memo: one more element
    set.set(&mut rt, 2); // equal value: the memo does not notify
    set.set(&mut rt, 5); // one more element
    sx.dispose_scope(&mut rt, sc);
    // After the owning scope is disposed the stream ends.
    let collected: Vec<i64> = block_on(rx.collect::<Vec<i64>>());
    assert_eq!(collected, vec![2, 4, 10]);
}

#[test]
fn disposing_a_middle_node_stops_propagation() {
    let (mut rt, mut sx, sc) = setup();
    let (sig, set) = create_signal(&mut rt, &mut sx, sc, 1);
    let m = create_memo(&mut rt, &mut sx, sc, Expr::Read(sig.node_id()));
    let e = reactive_graph::signal::create_effect(&mut rt, &mut sx, sc, Expr::Read(m.id));
    assert_eq!(rt.run_count(e.id), Some(1));
    m.dispose(&mut rt);
    // With the memo detached in both directions, writes reach nobody.
    set.set(&mut rt, 2);
    set.set(&mut rt, 3);
    assert_eq!(rt.run_count(e.id), Some(1));
    assert_eq!(sig.try_get(&rt), Some(3));
}

#[test]
fn effect_tracks_each_of_two_signals() {
    let (mut rt, mut sx, sc) = setup();
    let (a, set_a) = create_signal(&mut rt, &mut sx, sc, 1);
    let (b, set_b) = create_signal(&mut rt, &mut sx, sc, 2);
    let e = reactive_graph::signal::create_effect(
        &mut rt,
        &mut sx,
        sc,
        Expr::Add(Box::new(Expr::Read(a.node_id())), Box::new(Expr::Read(b.node_id()))),
    );
    assert_eq!(rt.run_count(e.id), Some(1));
    set_a.set(&mut rt, 10);
    assert_eq!(rt.run_count(e.id), Some(2));
    set_b.set(&mut rt, 20);
    assert_eq!(rt.run_count(e.id), Some(3));
}

#[test]
fn two_streams_of_one_memo() {
    let (mut rt, mut sx, _root) = setup();
    let sc = sx.create_scope(None);
    let (sig, set) = create_signal(&mut rt, &mut sx, sc, 1);
    let m = create_memo(&mut rt, &mut sx, sc, Expr::Read(sig.node_id()));
    let rx1 = m.to_stream(&mut rt, &mut sx, sc);
    let rx2 = m.to_stream(&mut rt, &mut sx, sc);
    set.set(&mut rt, 4);
    sx.dispose_scope(&mut rt, sc);
    assert_eq!(block_on(rx1.collect::<Vec<i64>>()), vec![1, 4]);
    assert_eq!(block_on(rx2.collect::<Vec<i64>>()), vec![1, 4]);
}

#[test]
fn runtime_mismatch_is_recoverable() {
    let (mut rt_a, mut sx, sc) = setup();
    let mut rt_b = Runtime::new(99);
    let (sig, set) = create_signal(&mut rt_a, &mut sx, sc, 11);
    // Reads and writes through the wrong runtime report failure.
    assert_eq!(sig.try_get(&rt_b), None);
    assert!(!set.try_set(&mut rt_b, 0));
    assert_eq!(sig.try_get(&rt_a), Some(11));
}
