use reactive_graph::expr::Expr;
use reactive_graph::memo::create_memo;
use reactive_graph::runtime::Runtime;
use reactive_graph::scope::{ScopeId, Scopes};
use reactive_graph::signal::{create_effect, create_signal};

fn setup() -> (Runtime, Scopes, ScopeId) {
    let mut sx = Scopes::new();
    let sc = sx.create_scope(None);
    (Runtime::new(1), sx, sc)
}

fn read(id: reactive_graph::node::NodeId) -> Expr {
    Expr::Read(id)
}

#[test]
fn single_recomputation_per_wave() {
    let (mut rt, mut sx, sc) = setup();
    let (sig, set) = create_signal(&mut rt, &mut sx, sc, 10);
    let double = Expr::Add(Box::new(read(sig.node_id())), Box::new(read(sig.node_id())));
    let m = create_memo(&mut rt, &mut sx, sc, double);
    assert_eq!(rt.run_count(m.id), Some(1));
    assert_eq!(m.get(&rt), 20);
    set.set(&mut rt, 11);
    assert_eq!(rt.run_count(m.id), Some(2));
    // Reading any number of times does not recompute.
    assert_eq!(m.get(&rt), 22);
    assert_eq!(m.get_untracked(&rt), 22);
    assert_eq!(m.try_get(&rt), Some(22));
    assert_eq!(rt.run_count(m.id), Some(2));
}

#[test]
fn change_gated_propagation() {
    let (mut rt, mut sx, sc) = setup();
    let (sig, set) = create_signal(&mut rt, &mut sx, sc, 20);
    // The memo saturates at 10: many signal values map to an equal result.
    let capped = Expr::Min(Box::new(read(sig.node_id())), Box::new(Expr::Const(10)));
    let m = create_memo(&mut rt, &mut sx, sc, capped);
    let e = create_effect(&mut rt, &mut sx, sc, read(m.id));
    assert_eq!(rt.run_count(e.id), Some(1));
    // 20 -> 30: the memo recomputes 10 == 10, so the effect must not re-run.
    set.set(&mut rt, 30);
    assert_eq!(rt.run_count(m.id), Some(2));
    assert_eq!(rt.run_count(e.id), Some(1));
    // 30 -> 5: the memo's value changes to 5, so the effect re-runs once.
    set.set(&mut rt, 5);
    assert_eq!(rt.run_count(m.id), Some(3));
    assert_eq!(rt.run_count(e.id), Some(2));
    assert_eq!(m.get(&rt), 5);
}

#[test]
fn diamond_dedup() {
    let (mut rt, mut sx, sc) = setup();
    let (sig, set) = create_signal(&mut rt, &mut sx, sc, 1);
    let m1 = create_memo(
        &mut rt,
        &mut sx,
        sc,
        Expr::Add(Box::new(read(sig.node_id())), Box::new(Expr::Const(100))),
    );
    let m2 = create_memo(
        &mut rt,
        &mut sx,
        sc,
        Expr::Add(Box::new(read(sig.node_id())), Box::new(Expr::Const(200))),
    );
    let e = create_effect(
        &mut rt,
        &mut sx,
        sc,
        Expr::Add(Box::new(read(m1.id)), Box::new(read(m2.id))),
    );
    assert_eq!(rt.run_count(e.id), Some(1));
    // One write changes both memos, but the effect re-runs exactly once.
    set.set(&mut rt, 2);
    assert_eq!(rt.run_count(m1.id), Some(2));
    assert_eq!(rt.run_count(m2.id), Some(2));
    assert_eq!(rt.run_count(e.id), Some(2));
}

#[test]
fn untracked_reads_do_not_subscribe() {
    let (mut rt, mut sx, sc) = setup();
    let (sig, set) = create_signal(&mut rt, &mut sx, sc, 7);
    let e = create_effect(&mut rt, &mut sx, sc, Expr::ReadUntracked(sig.node_id()));
    assert_eq!(rt.run_count(e.id), Some(1));
    set.set(&mut rt, 8);
    set.set(&mut rt, 9);
    // The untracked read registered no edge, so the effect never re-ran.
    assert_eq!(rt.run_count(e.id), Some(1));
    // A tracked read of the same signal does subscribe.
    let e2 = create_effect(&mut rt, &mut sx, sc, read(sig.node_id()));
    set.set(&mut rt, 10);
    assert_eq!(rt.run_count(e2.id), Some(2));
    assert_eq!(rt.run_count(e.id), Some(1));
}

#[test]
fn initial_value_availability() {
    let (mut rt, mut sx, sc) = setup();
    let (sig, _set) = create_signal(&mut rt, &mut sx, sc, 6);
    let m = create_memo(
        &mut rt,
        &mut sx,
        sc,
        Expr::Add(Box::new(read(sig.node_id())), Box::new(Expr::Const(1))),
    );
    // Before any write, the value of one derivation run is cached.
    assert_eq!(m.get_untracked(&rt), 7);
    assert_eq!(m.try_get_untracked(&rt), Some(7));
    assert_eq!(rt.run_count(m.id), Some(1));
}

#[test]
fn previous_value_feeds_the_derivation() {
    let (mut rt, mut sx, sc) = setup();
    let (sig, set) = create_signal(&mut rt, &mut sx, sc, 1);
    // An accumulator: previous value (0 on the first run) plus the signal.
    let acc = Expr::Add(Box::new(Expr::PrevOr(0)), Box::new(read(sig.node_id())));
    let m = create_memo(&mut rt, &mut sx, sc, acc);
    assert_eq!(m.get(&rt), 1);
    set.set(&mut rt, 2);
    assert_eq!(m.get(&rt), 3);
    set.set(&mut rt, 10);
    assert_eq!(m.get(&rt), 13);
}

#[test]
fn addition_wraps_on_overflow() {
    let (mut rt, mut sx, sc) = setup();
    let (sig, _set) = create_signal(&mut rt, &mut sx, sc, i64::MAX);
    let m = create_memo(
        &mut rt,
        &mut sx,
        sc,
        Expr::Add(Box::new(read(sig.node_id())), Box::new(Expr::Const(1))),
    );
    assert_eq!(m.get(&rt), i64::MIN);
}

#[test]
fn chained_memos_propagate() {
    let (mut rt, mut sx, sc) = setup();
    let (sig, set) = create_signal(&mut rt, &mut sx, sc, 3);
    let m1 = create_memo(
        &mut rt,
        &mut sx,
        sc,
        Expr::Add(Box::new(read(sig.node_id())), Box::new(read(sig.node_id()))),
    );
    let m2 = create_memo(
        &mut rt,
        &mut sx,
        sc,
        Expr::Add(Box::new(read(m1.id)), Box::new(Expr::Const(1))),
    );
    assert_eq!(m2.get(&rt), 7);
    set.set(&mut rt, 5);
    assert_eq!(m2.get(&rt), 11);
}

#[test]
fn with_applies_to_current_value() {
    let (mut rt, mut sx, sc) = setup();
    let (sig, _set) = create_signal(&mut rt, &mut sx, sc, 4);
    let m = create_memo(&mut rt, &mut sx, sc, read(sig.node_id()));
    let doubled = m.with(&rt, |v| v * 2);
    assert_eq!(doubled, 8);
    let tripled = m.try_with(&rt, |v| v * 3);
    assert_eq!(tripled, Some(12));
}

#[test]
fn signal_with_applies_to_current_value() {
    let (mut rt, mut sx, sc) = setup();
    let (sig, set) = create_signal(&mut rt, &mut sx, sc, 6);
    assert_eq!(sig.with(&rt, |v| v + 1), 7);
    assert_eq!(sig.with_untracked(&rt, |v| v - 1), 5);
    set.set(&mut rt, 8);
    assert_eq!(sig.try_with(&rt, |v| v * 2), Some(16));
    sig.dispose(&mut rt);
    assert_eq!(sig.try_with(&rt, |v| v), None);
    assert_eq!(sig.try_with_untracked(&rt, |v| v), None);
}

#[test]
fn signal_reads_and_try_set() {
    let (mut rt, mut sx, sc) = setup();
    let (sig, set) = create_signal(&mut rt, &mut sx, sc, 0);
    assert_eq!(sig.get(&rt), 0);
    assert_eq!(sig.get_untracked(&rt), 0);
    assert!(set.try_set(&mut rt, 41));
    assert_eq!(sig.try_get(&rt), Some(41));
    assert_eq!(sig.try_get_untracked(&rt), Some(41));
    sig.dispose(&mut rt);
    assert_eq!(sig.try_get(&rt), None);
    assert!(!set.try_set(&mut rt, 1));
}
