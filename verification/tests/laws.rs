use simcore::digest::mix;
use simcore::{build, mkid, Scenario, World, K_BELT, K_SINK, NONE};

fn lines(n: u32, need: u8) -> World {
    build(Scenario {
        lines: n,
        belts_in: 3,
        belts_out: 2,
        belt_cap: 6,
        belt_period: 4,
        mach_dur: 3,
        mach_need: need,
        src_period: 4,
    })
}

fn set_sinks_open(w: &mut World, open: bool) {
    for i in 0..w.sinks.len() {
        w.set_sink_open(mkid(K_SINK, i as u32), open);
    }
}

/// An item needs `(cap - 1) * period` ticks for the way from the last cell of a
/// belt to its head, and is handled at just that tick.
#[test]
fn items_arrive_when_they_are_due() {
    for (cap, period) in [(1, 1), (1, 9), (2, 1), (5, 3), (40, 7), (300, 300)] {
        let mut w = World::new();
        let k = w.add_sink();
        let b = w.add_belt(cap, period, k);
        w.add_source(1, u16::MAX, b);
        let way = (cap as u32 - 1) * period as u32;
        w.run(way);
        assert_eq!(w.delivered(), 0);
        w.run(1);
        assert_eq!(w.delivered(), 1, "{cap} cells, {period} ticks each");
        // Nothing is handled while an item is under way.
        let emitted = 1 + way as u64 / u16::MAX as u64;
        assert_eq!(w.events, emitted + 1);
    }
}

/// A belt holds an item per cell and no more.
#[test]
fn belts_hold_an_item_per_cell() {
    for cap in [1, 2, 3, 17, 1000] {
        let mut w = World::new();
        let b = w.add_belt(cap, 1, NONE);
        w.add_source(1, 1, b);
        w.run(3 * cap as u32 + 3);
        assert_eq!(w.items_on_belts(), cap as u64);
    }
}

/// Items leave a belt in the order in which they came.
#[test]
fn belts_keep_the_order_of_items() {
    let mut w = World::new();
    let k = w.add_sink();
    let m = w.add_machine(1, 1, 9, 1, k);
    let b = w.add_belt(4, 1, m);
    // The item of the second source is refused by the machine and blocks those
    // behind it. Gaps between items stay while a belt is blocked.
    w.add_source(1, 50, b);
    w.run(5);
    w.add_source(2, 50, b);
    w.run(300);
    assert_eq!(w.delivered(), 1);
    assert_eq!(w.items_on_belts(), 2);
}

/// What a source has emitted is on belts or in sinks.
#[test]
fn no_item_is_lost_or_made() {
    let mut w = World::new();
    let k = w.add_sink();
    let mut next = k;
    for _ in 0..4 {
        next = w.add_belt(5, 3, next);
    }
    w.add_source(1, 7, next);
    for t in 0..500u64 {
        w.step();
        assert_eq!(w.delivered() + w.items_on_belts(), 1 + t / 7);
    }
    w.set_sink_open(k, false);
    w.run(1000);
    let blocked = w.delivered() + w.items_on_belts();
    assert_eq!(w.items_on_belts(), 12);
    w.run(1000);
    assert_eq!(w.delivered() + w.items_on_belts(), blocked);
    w.set_sink_open(k, true);
    assert_eq!(w.delivered() + w.items_on_belts(), blocked);
}

/// Machines that take one item for each that they make lose none.
#[test]
fn machines_lose_nothing() {
    let mut w = lines(20, 1);
    let mut most = 0;
    for _ in 0..40 {
        w.run(25);
        let n = w.delivered() + w.items_on_belts();
        // A machine holds two items at most.
        assert!(n + 2 * 20 >= most);
        most = most.max(n);
    }
    assert!(w.delivered() > 0);
}

/// Machines that take two items for each that they make deliver half as many.
#[test]
fn machines_use_up_what_they_need() {
    let mut a = lines(10, 1);
    let mut b = lines(10, 2);
    a.run(4000);
    b.run(4000);
    assert_eq!(a.delivered(), 9750);
    assert_eq!(b.delivered(), 4870);
}

/// A factory whose sinks are closed falls asleep and stays so.
#[test]
fn closed_factory_falls_asleep() {
    for need in [1, 2, 5] {
        let mut w = lines(7, need);
        w.run(123);
        set_sinks_open(&mut w, false);
        w.run(2000);
        let (e, n) = (w.events, w.items_on_belts());
        for _ in 0..20 {
            w.run(100);
            assert_eq!(w.events, e);
            assert_eq!(w.items_on_belts(), n);
        }
        let h = w.state_hash();
        w.run(1);
        assert_ne!(w.state_hash(), h);
        // All that waits for a sink is woken when it opens.
        set_sinks_open(&mut w, true);
        let d = w.delivered();
        w.run(1);
        assert_eq!(w.delivered(), d + 7);
    }
}

/// A factory without nodes that have something to do has no events.
#[test]
fn idle_factory_has_no_events() {
    let mut w = World::new();
    let k = w.add_sink();
    let b = w.add_belt(3, 1, k);
    w.add_machine(1, 1, 1, 1, b);
    w.run(100_000);
    assert_eq!(w.events, 0);
    assert_eq!(w.now, 100_000);
}

/// The same history gives the same state, whoever looked on the way.
#[test]
fn same_history_same_state() {
    let mut a = lines(9, 2);
    let mut b = lines(9, 2);
    for k in 0..30u32 {
        let sink = mkid(K_SINK, k % 9);
        a.run(17);
        a.set_sink_open(sink, k % 2 == 0);
        for _ in 0..17 {
            b.state_hash();
            b.step();
        }
        b.set_sink_open(sink, k % 2 == 0);
        if k % 3 == 0 {
            b.state_hash();
        }
    }
    assert_eq!(a.state_hash(), b.state_hash());
    assert_eq!(a.delivered(), b.delivered());
    assert_eq!(a.events, b.events);
}

/// Of two belts that deliver in one tick, the one with the lower number comes first
/// if events are sorted, and the one whose timer was set last if not.
#[test]
fn sorted_events_go_by_number() {
    for (sorted, delivered, on_belts, events, hash) in [
        (false, 0, 2, 6, 0x8968_8aa3_8ade_d9f9u64),
        (true, 1, 1, 8, 0x8fe9_a5d6_7641_6f7c),
    ] {
        let mut w = World::new();
        w.set_sort_events(sorted);
        let k = w.add_sink();
        let m = w.add_machine(1, 1, 9, 1, k);
        let last = mkid(K_BELT, 2);
        let a = w.add_belt(4, 1, last);
        let b = w.add_belt(4, 1, last);
        assert!(a < b);
        assert_eq!(w.add_belt(1, 1, m), last);
        // What comes by the second belt is refused by the machine.
        w.add_source(2, 60_000, b);
        w.add_source(1, 60_000, a);
        w.run(10);
        assert_eq!(w.delivered(), delivered);
        assert_eq!(w.items_on_belts(), on_belts);
        assert_eq!(w.events(), events);
        assert_eq!(w.state_hash(), hash);
    }
}

/// In production lines raw items, with those that products were made of, are what
/// the sources have emitted.
#[test]
fn production_lines_lose_nothing() {
    for (need, first, second) in [(1u64, 315, 321), (2, 318, 324), (5, 333, 348)] {
        // No belts behind the machines, so that only raw items lie on belts.
        let mut w = build(Scenario {
            lines: 3,
            belts_in: 2,
            belts_out: 0,
            belt_cap: 4,
            belt_period: 2,
            mach_dur: 3,
            mach_need: need as u8,
            src_period: 4,
        });
        for t in 0..400u64 {
            w.step();
            let emitted = 3 * (1 + t / 4);
            let seen = w.items_on_belts() + need * w.delivered();
            // A machine holds less than it needs besides what it works on.
            assert!(seen <= emitted && emitted <= seen + 3 * (2 * need - 1), "tick {t}");
        }
        assert!(w.delivered() > 0);
        // With closed sinks each machine comes to hold its product and its full input.
        set_sinks_open(&mut w, false);
        w.run(400);
        assert_eq!(w.items_on_belts() + need * (w.delivered() + 2 * 3), first);
        set_sinks_open(&mut w, true);
        w.run(1);
        set_sinks_open(&mut w, false);
        w.run(400);
        assert_eq!(w.items_on_belts() + need * (w.delivered() + 2 * 3), second);
    }
}

/// While a factory runs, gates stay, closed sinks receive nothing, and no count falls.
#[test]
fn sinks_go_on() {
    let mut w = lines(4, 1);
    w.run(200);
    let closed = mkid(K_SINK, 2);
    w.set_sink_open(closed, false);
    let mut before: Vec<u64> = (0..4).map(|i| w.received(mkid(K_SINK, i))).collect();
    let stays = before[2];
    for _ in 0..50 {
        w.run(7);
        for i in 0..4 {
            let sink = mkid(K_SINK, i);
            assert_eq!(w.is_open(sink), sink != closed);
            assert!(w.received(sink) >= before[i as usize]);
            before[i as usize] = w.received(sink);
        }
        assert_eq!(w.received(closed), stays);
    }
    assert!(before[0] > stays);
}

/// States that differ in one word have different hashes.
#[test]
fn hash_tells_one_word() {
    for (h, a, b) in [(0, 0, 1), (7, 1 << 63, 0), (u64::MAX, 5, 6), (1, 0xffff_ffff, 0)] {
        assert_ne!(mix(h, a), mix(h, b));
        assert_ne!(mix(a, h), mix(b, h));
    }
    let mut w = lines(5, 2);
    w.run(300);
    let h = w.state_hash();
    let n = w.sinks[3].count;
    w.sinks[3].count = n + 1;
    assert_ne!(w.state_hash(), h);
    w.sinks[3].count = n;
    assert_eq!(w.state_hash(), h);
    w.set_sink_open(mkid(K_SINK, 3), false);
    assert_ne!(w.state_hash(), h);
}

/// The same history gives the same state, also where nodes are added on the way.
#[test]
fn growing_factories_go_by_their_history() {
    let mut hashes = Vec::new();
    for looks in [false, true] {
        let mut w = World::new();
        let mut next = w.add_sink();
        for k in 0..12u16 {
            next = w.add_belt(2 + k, 1 + k % 3, next);
            if k % 4 == 1 {
                next = w.add_machine(1, 1, 1, 3, next);
            }
            w.add_source(1, 5 + k, next);
            if looks {
                w.state_hash();
            }
            w.set_sort_events(k % 2 == 0);
            w.run(40);
        }
        let k = w.add_sink();
        w.set_belt_out(mkid(K_BELT, 3), k);
        w.run(100);
        hashes.push((w.state_hash(), w.delivered(), w.events()));
    }
    assert_eq!(hashes[0], hashes[1]);
    assert!(hashes[0].1 > 0);
}

/// A node waits for the one that it delivers to: for one that takes nothing only if
/// it is to deliver to it.
#[test]
fn nodes_wait_for_their_outs() {
    let mut w = World::new();
    let k = w.add_sink();
    let a = w.add_belt(2, 1, k);
    let b = w.add_belt(2, 1, NONE);
    w.add_source(1, 1, a);
    w.add_source(1, 1, b);
    w.set_sink_open(k, false);
    w.run(20);
    assert_eq!(w.items_on_belts(), 4);
    let e = w.events();
    w.run(20);
    assert_eq!(w.events(), e);
    // What waits for the sink goes on when it opens, the rest never does.
    w.set_sink_open(k, true);
    w.run(20);
    assert_eq!(w.delivered(), 20);
    assert_eq!(w.items_on_belts(), 3);
    // A belt that waits while it is given another out waits on.
    w.set_belt_out(b, k);
    w.run(20);
    assert_eq!(w.delivered(), 40);
    assert_eq!(w.items_on_belts(), 3);
}

/// To account for the movement of belts now and then makes no difference.
#[test]
fn accounting_on_the_way() {
    for (cap, period) in [(5, 3), (40, 7), (1000, 1), (3, 500)] {
        let mut a = World::new();
        let mut b = World::new();
        for w in [&mut a, &mut b] {
            let k = w.add_sink();
            let belt = w.add_belt(cap, period, k);
            w.add_source(1, 11, belt);
        }
        for t in 1..400u32 {
            a.step();
            b.step();
            if t % 5 == 0 {
                let h = b.state_hash();
                assert_eq!(b.state_hash(), h);
            }
        }
        assert_eq!(a.state_hash(), b.state_hash(), "{cap} cells, {period} ticks each");
    }
}

/// There are never more items than each source can have emitted in each tick.
#[test]
fn items_can_be_counted() {
    let mut w = World::new();
    let k = w.add_sink();
    let mut sources = 0;
    for i in 0..6u16 {
        let b = w.add_belt(3 + i, 1 + i % 2, k);
        w.add_source(1, 1 + i, b);
        sources += 1;
        w.run(25);
        assert!(w.delivered() + w.items_on_belts() <= (w.now() as u64 + 1) * sources);
    }
    // A source that emits in every tick comes up to that.
    let mut w = World::new();
    let k = w.add_sink();
    w.add_source(1, 1, k);
    w.run(50);
    assert_eq!(w.delivered(), 50);
}
