use simcore::{build, mkid, Scenario, K_SINK};

fn scen() -> Scenario {
    Scenario {
        lines: 500,
        belts_in: 5,
        belts_out: 3,
        belt_cap: 13,
        belt_period: 7,
        mach_dur: 11,
        mach_need: 2,
        src_period: 5,
    }
}

/// The same input gives the same hash.
#[test]
fn same_input_same_hash() {
    let mut a = build(scen());
    let mut b = build(scen());
    a.run(5000);
    b.run(5000);
    assert_eq!(a.state_hash(), b.state_hash());
    assert_eq!(a.delivered(), b.delivered());
    assert!(a.delivered() > 0);
}

/// Looking at the state all the time changes nothing.
#[test]
fn lazy_sync_is_transparent() {
    let mut a = build(scen());
    let mut b = build(scen());
    a.run(5000);
    for _ in 0..5000 {
        b.step();
        b.state_hash();
    }
    assert_eq!(a.state_hash(), b.state_hash());
}

/// Running in parts is running at once.
#[test]
fn split_run_equals_single_run() {
    let mut a = build(scen());
    let mut b = build(scen());
    a.run(3000);
    b.run(1000);
    b.run(1000);
    b.run(1000);
    assert_eq!(a.state_hash(), b.state_hash());
}

/// No item is lost when everything is blocked and set free again.
#[test]
fn jam_conserves_items() {
    let mut w = build(scen());
    w.run(2000);
    let before = w.delivered() + w.items_on_belts();
    for i in 0..w.sinks.len() {
        w.set_sink_open(mkid(K_SINK, i as u32), false);
    }
    w.run(3000);
    for i in 0..w.sinks.len() {
        w.set_sink_open(mkid(K_SINK, i as u32), true);
    }
    w.run(3000);
    let after = w.delivered() + w.items_on_belts();
    assert!(after >= before, "items were lost: {before} -> {after}");
}

/// A factory in which everything is blocked has no events.
#[test]
fn jammed_factory_is_free() {
    let mut w = build(scen());
    for i in 0..w.sinks.len() {
        w.set_sink_open(mkid(K_SINK, i as u32), false);
    }
    w.run(4000);
    let e0 = w.events;
    w.run(1000);
    let per_tick = (w.events - e0) as f64 / 1000.0;
    assert!(per_tick < 0.01, "the blocked factory still has {per_tick} events per tick");
}
