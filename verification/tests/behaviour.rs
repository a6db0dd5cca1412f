use simcore::order::radix_sort;
use simcore::timers::TimerHeap;
use simcore::{
    build, cfg_for, churn_gate, idx_of, kind_of, mkid, Belt, Machine, Scenario, Sink, Source, World,
    K_BELT, K_MACH, K_SINK, K_SRC, NONE,
};
use std::mem::size_of;

fn small() -> Scenario {
    Scenario {
        lines: 3,
        belts_in: 2,
        belts_out: 2,
        belt_cap: 4,
        belt_period: 3,
        mach_dur: 5,
        mach_need: 2,
        src_period: 2,
    }
}

fn set_sinks_open(w: &mut World, open: bool) {
    for i in 0..w.sinks.len() {
        w.set_sink_open(mkid(K_SINK, i as u32), open);
    }
}

// ------------------------------------------------------------------ identifiers

#[test]
fn identifiers_hold_kind_and_index() {
    assert_eq!(mkid(K_BELT, 0), 0);
    assert_eq!(mkid(K_MACH, 5), 0x4000_0005);
    assert_eq!(mkid(K_SINK, 0x3fff_ffff), 0xbfff_ffff);
    assert_eq!(mkid(K_SRC, 1), 0xc000_0001);
    for kind in [K_BELT, K_MACH, K_SINK, K_SRC] {
        for idx in [0, 1, 12345, 0x3fff_ffff] {
            assert_eq!(kind_of(mkid(kind, idx)), kind);
            assert_eq!(idx_of(mkid(kind, idx)), idx as usize);
        }
    }
    assert_eq!(NONE, u32::MAX);
}

#[test]
fn nodes_are_numbered_by_kind() {
    let mut w = World::default();
    assert_eq!(w.node_count(), 0);
    assert_eq!(w.add_sink(), mkid(K_SINK, 0));
    assert_eq!(w.add_sink(), mkid(K_SINK, 1));
    assert_eq!(w.add_belt(4, 1, NONE), mkid(K_BELT, 0));
    assert_eq!(w.add_machine(1, 1, 2, 1, NONE), mkid(K_MACH, 0));
    assert_eq!(w.add_source(1, 1, NONE), mkid(K_SRC, 0));
    assert_eq!(w.add_belt(4, 1, NONE), mkid(K_BELT, 1));
    assert_eq!(w.node_count(), 6);
    assert_eq!((w.now, w.now()), (0, 0));
    assert_eq!((w.events, w.events()), (0, 0));
}

// ------------------------------------------------------------------------- hash

#[test]
fn hash_of_an_empty_factory() {
    let mut w = World::new();
    assert_eq!(w.state_hash(), 0xaf63_bd4c_8601_b7df);
}

#[test]
fn hash_words_are_hashed_in_their_order() {
    fn fnv(words: &[u64]) -> u64 {
        let mut h: u64 = 0xcbf2_9ce4_8422_2325;
        for v in words {
            h ^= v;
            h = h.wrapping_mul(0x100_0000_01b3);
        }
        h
    }
    let mut w = World::new();
    let k = w.add_sink();
    let m = w.add_machine(1, 2, 5, 9, k);
    let b = w.add_belt(7, 3, m);
    w.add_source(1, 4, b);
    w.run(2);
    // One item, five cells from the head after two ticks of seven.
    assert_eq!(
        w.state_hash(),
        fnv(&[2, 7, 7, 6, 0, 1, 1, 6, 0xffff_ffff, 0, 0, 0, 0, 1, 0, 2])
    );
    w.run(1);
    assert_eq!(
        w.state_hash(),
        fnv(&[3, 7, 6, 5, 0, 1, 1, 5, 0xffff_ffff, 0, 0, 0, 0, 1, 0, 1])
    );
    // The first item arrives at tick 18, the second one at tick 22.
    w.run(16);
    assert_eq!(w.events, 6);
    w.run(4);
    // The machine is at work since the current tick less one.
    assert_eq!(w.now, 23);
    let h = w.state_hash();
    w.set_sink_open(k, false);
    assert_ne!(w.state_hash(), h);
    w.set_sink_open(k, true);
    assert_eq!(w.state_hash(), h);
}

// --------------------------------------------------------------- single machines

#[test]
fn belt_carries_items_to_a_sink() {
    let mut w = World::new();
    let k = w.add_sink();
    let b = w.add_belt(3, 2, k);
    w.add_source(7, 4, b);
    let want = [
        (0, 0, 0, 0xdda0_9b05_1aa2_899eu64),
        (0, 1, 1, 0xcd3d_bd8a_65c8_9f95),
        (0, 1, 1, 0x71c6_001e_4bc0_aaac),
        (0, 1, 1, 0x3121_2aaf_3bda_61f2),
        (0, 1, 1, 0xe4af_9f5d_e8e4_4931),
        (1, 1, 3, 0xb2ac_2b15_a286_7a3c),
        (1, 1, 3, 0x5734_77a9_887e_9651),
        (1, 1, 3, 0x2e7d_e111_1163_c8a7),
        (1, 1, 3, 0x230b_d040_f7c8_6050),
        (2, 1, 5, 0x3078_b557_560a_798f),
    ];
    for (delivered, on_belts, events, hash) in want {
        assert_eq!(w.delivered(), delivered);
        assert_eq!(w.items_on_belts(), on_belts);
        assert_eq!(w.events, events);
        assert_eq!(w.state_hash(), hash);
        w.step();
    }
}

#[test]
fn machine_turns_two_items_into_one() {
    let mut w = World::new();
    let k = w.add_sink();
    let m = w.add_machine(1, 2, 2, 3, k);
    w.add_source(1, 1, m);
    let mut delivered = Vec::new();
    let mut events = Vec::new();
    for _ in 0..12 {
        delivered.push(w.delivered());
        events.push(w.events);
        w.step();
    }
    assert_eq!(delivered, vec![0, 0, 0, 0, 0, 1, 1, 1, 2, 2, 2, 3]);
    assert_eq!(events, vec![0, 1, 2, 3, 4, 7, 8, 9, 11, 12, 13, 15]);
}

#[test]
fn machine_refuses_other_items() {
    let mut w = World::new();
    let k = w.add_sink();
    let m = w.add_machine(1, 1, 2, 1, k);
    w.add_source(9, 1, m);
    w.run(10);
    assert_eq!(w.delivered(), 0);
    assert_eq!(w.events, 1);
    assert_eq!(w.state_hash(), 0xd5ed_a98c_908e_038d);
}

#[test]
fn machine_may_feed_itself() {
    let mut w = World::new();
    let m = w.add_machine(1, 1, 1, 3, mkid(K_MACH, 0));
    w.add_source(1, 2, m);
    w.run(40);
    assert_eq!(w.events, 4);
    assert_eq!(w.state_hash(), 0x1cca_db8e_c102_1dbb);
}

#[test]
fn belt_without_output_fills_up() {
    let mut w = World::new();
    let b = w.add_belt(2, 1, NONE);
    w.add_source(3, 1, b);
    w.run(50);
    assert_eq!(w.items_on_belts(), 2);
    assert_eq!(w.events, 4);
    assert_eq!(w.state_hash(), 0xc336_bb1e_d25f_b1a3);
}

#[test]
fn belt_may_feed_itself() {
    let mut w = World::new();
    let b = w.add_belt(5, 2, NONE);
    w.set_belt_out(b, b);
    w.add_source(3, 1, b);
    w.run(100);
    assert_eq!(w.items_on_belts(), 5);
    assert_eq!(w.events, 11);
    assert_eq!(w.state_hash(), 0x320a_81e2_adbc_fd12);
    w.run(1000);
    assert_eq!(w.events, 11);
    assert_eq!(w.state_hash(), 0x62f9_40fc_d61a_7f5a);
}

#[test]
fn two_sources_share_a_belt() {
    let mut w = World::new();
    let k = w.add_sink();
    let b = w.add_belt(4, 2, k);
    w.add_source(1, 3, b);
    w.add_source(2, 5, b);
    w.run(60);
    assert_eq!(w.delivered(), 27);
    assert_eq!(w.items_on_belts(), 3);
    assert_eq!(w.events, 68);
    assert_eq!(w.state_hash(), 0xa39a_c1d1_2cc8_470c);
}

#[test]
fn timers_beyond_the_wheel() {
    let mut w = World::new();
    let k = w.add_sink();
    let b = w.add_belt(100, 1000, k);
    w.add_source(7, 65535, b);
    w.run(99_000);
    assert_eq!(w.delivered(), 0);
    assert_eq!(w.items_on_belts(), 2);
    assert_eq!(w.events, 2);
    w.run(1);
    assert_eq!(w.delivered(), 1);
    assert_eq!(w.state_hash(), 0xa69e_f727_120e_b2ae);
    w.run(99_001);
    assert_eq!(w.delivered(), 2);
    assert_eq!(w.items_on_belts(), 2);
    assert_eq!(w.events, 6);
    assert_eq!(w.state_hash(), 0x3da3_9eb9_1a90_cc97);
}

#[test]
fn belt_of_the_longest_way() {
    let mut w = World::new();
    let k = w.add_sink();
    let b = w.add_belt(u16::MAX, u16::MAX, k);
    w.add_source(7, 60_000, b);
    // Only the first item sets the belt's timer; others follow when it moves on.
    w.run(300_001);
    assert_eq!(w.items_on_belts(), 5);
    assert_eq!(w.events(), 9);
    assert_eq!(w.delivered(), 0);
    assert_eq!(w.state_hash(), 0xdb7e_88be_fd81_a0c1);
}

#[test]
fn gate_of_a_sink() {
    let mut w = World::new();
    let k = w.add_sink();
    w.add_source(1, 1, k);
    w.run(5);
    assert_eq!(w.delivered(), 5);
    w.set_sink_open(k, false);
    assert_eq!(w.sinks[0].open, 0);
    assert!(!w.is_open(k));
    w.run(5);
    assert_eq!(w.delivered(), 5);
    let e = w.events;
    w.run(5);
    assert_eq!(w.events, e);
    w.set_sink_open(k, true);
    w.set_sink_open(k, true);
    assert_eq!(w.sinks[0].open, 1);
    assert!(w.is_open(k));
    w.run(1);
    assert_eq!(w.delivered(), 6);
    assert_eq!((w.sinks[0].count, w.received(k)), (6, 6));
    assert_eq!((w.now(), w.events()), (16, w.events));
}

// --------------------------------------------------------------------- factories

#[test]
fn production_lines_in_steady_state() {
    let mut w = build(Scenario {
        lines: 500,
        belts_in: 5,
        belts_out: 3,
        belt_cap: 13,
        belt_period: 7,
        mach_dur: 11,
        mach_need: 2,
        src_period: 5,
    });
    assert_eq!(w.node_count(), 500 * 11);
    w.run(2000);
    assert_eq!(w.state_hash(), 0x11a5_7759_9586_e13b);
    assert_eq!(w.delivered(), 47_000);
    assert_eq!(w.items_on_belts(), 39_000);
    assert_eq!(w.events, 1_116_500);
    w.run(3000);
    assert_eq!(w.state_hash(), 0x89cf_8a37_79ad_bdef);
    assert_eq!(w.delivered(), 154_000);
    assert_eq!(w.items_on_belts(), 39_000);
    assert_eq!(w.events, 3_046_000);
}

#[test]
fn production_lines_blocked_and_set_free() {
    let mut w = build(small());
    w.run(100);
    assert_eq!(w.state_hash(), 0x0b48_d6ff_e94c_8f54);
    assert_eq!((w.delivered(), w.items_on_belts(), w.events), (30, 27, 480));
    set_sinks_open(&mut w, false);
    w.run(200);
    assert_eq!(w.state_hash(), 0xbe36_150b_29fe_4a94);
    assert_eq!((w.delivered(), w.items_on_belts(), w.events), (30, 42, 624));
    w.run(50);
    assert_eq!(w.state_hash(), 0xc8de_2055_1a75_363e);
    assert_eq!(w.events, 624);
    set_sinks_open(&mut w, true);
    w.run(100);
    assert_eq!(w.state_hash(), 0x2852_f2eb_096e_9184);
    assert_eq!((w.delivered(), w.items_on_belts(), w.events), (90, 27, 1158));
}

#[test]
fn sorted_events_of_many_lines() {
    let mut a = build(Scenario { lines: 3000, ..small() });
    let mut b = build(Scenario { lines: 3000, ..small() });
    a.set_sort_events(true);
    assert!(a.sort_events);
    a.run(300);
    b.run(300);
    for w in [&mut a, &mut b] {
        assert_eq!(w.state_hash(), 0x1efb_5ca3_8ef7_5de3);
        assert_eq!((w.delivered(), w.items_on_belts(), w.events), (129_000, 27_000, 1_575_000));
    }
}

/// A generator of small numbers.
struct Numbers(u32);

impl Numbers {
    fn below(&mut self, n: u32) -> u32 {
        self.0 = self.0.wrapping_mul(1_664_525).wrapping_add(1_013_904_223);
        (self.0 >> 8) % n
    }
}

fn tangle(seed: u32) -> World {
    let mut r = Numbers(seed);
    let mut w = World::new();
    let nb = 3 + r.below(8);
    let nm = 1 + r.below(4);
    let nk = 1 + r.below(3);
    let ns = 1 + r.below(4);
    fn target(r: &mut Numbers, nb: u32, nm: u32, nk: u32) -> u32 {
        match r.below(6) {
            0 | 1 | 2 | 3 => mkid(K_BELT, r.below(nb)),
            4 => mkid(K_MACH, r.below(nm)),
            _ => mkid(K_SINK, r.below(nk)),
        }
    }
    for _ in 0..nk {
        w.add_sink();
    }
    for _ in 0..nb {
        let cap = 2 + r.below(8) as u16;
        let period = 1 + r.below(5) as u16;
        let out = target(&mut r, nb, nm, nk);
        w.add_belt(cap, period, out);
    }
    for _ in 0..nm {
        let in_item = 1 + r.below(3) as u16;
        let need = 1 + r.below(3) as u8;
        let out_item = 1 + r.below(3) as u16;
        let dur = 1 + r.below(9) as u16;
        let out = target(&mut r, nb, nm, nk);
        w.add_machine(in_item, need, out_item, dur, out);
    }
    for _ in 0..ns {
        let item = 1 + r.below(3) as u16;
        let period = 1 + r.below(9) as u16;
        let out = target(&mut r, nb, nm, nk);
        w.add_source(item, period, out);
    }
    w.run(200);
    let gate = mkid(K_SINK, r.below(nk));
    w.set_sink_open(gate, false);
    w.run(300);
    w.set_sink_open(gate, true);
    w.run(200);
    w
}

#[test]
fn tangled_factories() {
    let want: [(u64, u64, u64, u64); 24] = [
        (0x710a_3b43_daa7_73d3, 232, 19, 525),
        (0xd339_e54a_932a_967e, 201, 27, 722),
        (0xe924_0bc6_68d4_47a3, 78, 14, 174),
        (0xe09d_1b67_b102_4c4a, 216, 2, 450),
        (0xc477_7624_48c3_faf6, 0, 6, 11),
        (0x26c0_6bcd_5b58_9dcb, 175, 0, 175),
        (0xe4c8_e80b_0885_c250, 0, 5, 12),
        (0x5425_1d4e_5083_bc31, 56, 11, 154),
        (0x896b_5dbf_c0ac_309a, 209, 12, 583),
        (0xd4f1_61f4_f531_1a56, 0, 17, 107),
        (0x9597_cac2_9d5a_ba97, 78, 18, 2235),
        (0xed93_af1b_3255_dc5f, 200, 2, 206),
        (0xb62e_0a66_6188_4e13, 875, 0, 875),
        (0xe6fe_7b8e_2db0_44ca, 332, 2, 531),
        (0xde1d_082e_e59c_94f7, 45, 3, 144),
        (0x5fb6_c6ca_b51e_91dc, 0, 2, 4),
        (0x2f54_0a16_1b6b_7a11, 476, 10, 731),
        (0x31ce_808e_0b76_a518, 0, 9, 21),
        (0x1e0a_46a1_5908_27ab, 273, 9, 753),
        (0x6a98_fc76_ad57_c57a, 0, 16, 63),
        (0x6195_eac7_6556_8b18, 124, 9, 222),
        (0x28e7_ec7f_3d4d_965e, 0, 13, 512),
        (0xfddc_9c13_d591_6a04, 0, 19, 124),
        (0xbbdc_b624_fa77_f4ae, 71, 11, 275),
    ];
    for (k, (hash, delivered, on_belts, events)) in want.iter().enumerate() {
        let mut w = tangle(k as u32 + 1);
        assert_eq!(w.delivered(), *delivered, "factory {k}");
        assert_eq!(w.items_on_belts(), *on_belts, "factory {k}");
        assert_eq!(w.events, *events, "factory {k}");
        assert_eq!(w.state_hash(), *hash, "factory {k}");
    }
}

// --------------------------------------------------------------------- scenarios

#[test]
fn scenario_for_a_number_of_nodes() {
    let c = cfg_for(1_000_000, 16, 30);
    assert_eq!(c.nodes_per_line(), 19);
    assert_eq!(c.lines, 52_631);
    assert_eq!((c.belts_in, c.belts_out), (8, 8));
    assert_eq!((c.belt_cap, c.belt_period), (16, 30));
    assert_eq!((c.mach_dur, c.mach_need, c.src_period), (30, 1, 30));
    assert_eq!(c.warmup_ticks(), 16 * 30 * 18);
    assert!(c.can_build());
    for (nodes, lines) in [(0, 1), (18, 1), (19, 1), (37, 1), (38, 2), (u32::MAX, 226_050_910)] {
        assert_eq!(cfg_for(nodes, 1, 1).lines, lines);
    }
    let w = build(cfg_for(100, 16, 30));
    assert_eq!(w.node_count(), 5 * 19);
}

#[test]
fn scenarios_that_cannot_be_built() {
    assert!(small().can_build());
    assert!(!Scenario { lines: 0x1000_0001, ..small() }.can_build());
    assert!(!Scenario { belts_in: u32::MAX, belts_out: 1, ..small() }.can_build());
    assert!(!Scenario { belt_cap: 0, ..small() }.can_build());
    assert!(!Scenario { belt_period: 0, ..small() }.can_build());
    assert!(!Scenario { mach_need: 0, ..small() }.can_build());
    assert!(!Scenario { mach_dur: 0, ..small() }.can_build());
    assert!(!Scenario { src_period: 0, ..small() }.can_build());
    assert!(Scenario { lines: 0, mach_need: 0, ..small() }.can_build());
    assert!(Scenario { belts_in: 0, belts_out: 0, belt_cap: 0, ..small() }.can_build());
}

#[test]
fn factories_run_as_long_as_the_clock_lasts() {
    // Belts look furthest ahead: (4 - 1) * 3 ticks.
    let mut w = build(small());
    assert!(w.can_run(0));
    assert!(w.can_run(u32::MAX - 8));
    assert!(!w.can_run(u32::MAX - 7));
    w.run(10);
    assert!(w.can_run(u32::MAX - 18));
    assert!(!w.can_run(u32::MAX - 17));
    let mut w = World::new();
    assert!(w.can_run(u32::MAX));
    w.add_machine(1, 1, 1, 100, NONE);
    // A factory that is asleep needs the clock for its ticks only.
    assert!(w.can_run(u32::MAX));
    w.add_source(1, 1, NONE);
    assert!(w.can_run(u32::MAX - 99));
    assert!(!w.can_run(u32::MAX - 98));
    let mut w = World::new();
    w.add_source(1, 100, NONE);
    assert!(w.can_run(u32::MAX - 99));
    assert!(!w.can_run(u32::MAX - 98));
}

#[test]
fn factories_with_loose_ends_cannot_run() {
    for out in [mkid(K_BELT, 1), mkid(K_MACH, 0), mkid(K_SINK, 0)] {
        let mut w = World::new();
        let b = w.add_belt(3, 1, out);
        w.add_source(1, 1, b);
        assert!(w.can_run(0));
        assert!(!w.can_run(1));
        w.set_belt_out(b, NONE);
        assert!(w.can_run(1));
    }
    let mut w = World::new();
    w.add_belt(3, 1, mkid(K_SINK, 0));
    w.add_source(1, 1, NONE);
    assert!(!w.can_run(1));
    w.add_sink();
    assert!(w.can_run(1));
    w.add_machine(1, 1, 1, 1, mkid(K_MACH, 1));
    assert!(!w.can_run(1));
    w.add_machine(1, 1, 1, 1, NONE);
    assert!(w.can_run(1));
    w.add_source(1, 1, mkid(K_BELT, 7));
    assert!(!w.can_run(1));
}

#[test]
fn loose_ends_do_not_matter_while_asleep() {
    for out in [mkid(K_BELT, 1), mkid(K_MACH, 7), mkid(K_SINK, 0)] {
        let mut w = World::new();
        w.add_belt(3, 1, out);
        w.add_machine(1, 1, 1, u16::MAX, out);
        assert!(w.can_run(100));
        w.run(100);
        assert_eq!(w.now(), 100);
        assert_eq!(w.events(), 0);
        assert!(w.can_run(u32::MAX - 100));
        assert!(!w.can_run(u32::MAX - 99));
    }
}

#[test]
fn loops_of_one_cell_belts_cannot_run() {
    // A belt that is its own output.
    let mut w = World::new();
    let b = w.add_belt(1, 1, NONE);
    w.add_source(1, 1, b);
    assert!(w.can_run(1));
    w.set_belt_out(b, b);
    assert!(!w.can_run(1));
    // A path into a loop of three.
    let mut w = World::new();
    for i in 0..10 {
        w.add_belt(1, 1, mkid(K_BELT, i + 1));
    }
    let last = w.add_belt(1, 1, mkid(K_BELT, 8));
    w.add_source(1, 1, last);
    assert!(!w.can_run(1));
    w.set_belt_out(last, NONE);
    assert!(w.can_run(1));
    // Without items nothing goes round.
    let mut w = World::new();
    let b = w.add_belt(1, 1, NONE);
    w.set_belt_out(b, b);
    assert!(w.can_run(10));
    w.run(10);
    assert_eq!(w.events(), 0);
    // A wider belt breaks the loop.
    let mut w = World::new();
    let a = w.add_belt(1, 1, mkid(K_BELT, 1));
    let b = w.add_belt(2, 1, a);
    w.add_source(1, 1, b);
    assert!(w.can_run(100));
    w.run(100);
    assert_eq!(w.items_on_belts(), 2);
}

#[test]
fn factories_of_many_cells_run_while_items_are_few() {
    // More cells than runs could be numbered, if each held one of its own.
    let mut w = World::new();
    let mut next = w.add_sink();
    for _ in 0..66_000 {
        next = w.add_belt(u16::MAX, 1, next);
    }
    w.add_source(1, 1, next);
    assert!(w.can_run(1000));
    w.run(1000);
    assert_eq!(w.items_on_belts(), 1000);
    assert!(w.can_run(u32::MAX - 1000 - 65_533));
    assert!(!w.can_run(u32::MAX - 1000 - 65_532));
    // Two more sources could emit too many items before the clock runs out.
    w.add_source(1, 1, mkid(K_BELT, 0));
    w.add_source(1, 1, mkid(K_BELT, 1));
    assert!(w.can_run(0x5555_5000));
    assert!(!w.can_run(0x5555_5555));
}

#[test]
fn factory_without_belts_or_lines() {
    let mut w = build(Scenario { belts_in: 0, belts_out: 0, ..small() });
    assert_eq!(w.node_count(), 9);
    w.run(100);
    assert!(w.delivered() > 0);
    assert_eq!(w.items_on_belts(), 0);
    let mut w = build(Scenario { lines: 0, ..small() });
    assert_eq!(w.node_count(), 0);
    w.run(10);
    assert_eq!(w.now, 10);
    assert_eq!(w.events, 0);
}

#[test]
fn sinks_are_opened_and_closed_in_turn() {
    assert_eq!(churn_gate(0, 60), Some(true));
    assert_eq!(churn_gate(1, 60), None);
    assert_eq!(churn_gate(59, 60), None);
    assert_eq!(churn_gate(60, 60), Some(false));
    assert_eq!(churn_gate(120, 60), Some(true));
    assert_eq!(churn_gate(7, 1), Some(false));
}

// ------------------------------------------------------------------------ memory

#[test]
fn nodes_are_small() {
    assert_eq!(size_of::<Belt>(), 36);
    assert_eq!(size_of::<Machine>(), 28);
    assert_eq!(size_of::<Sink>(), 16);
    assert_eq!(size_of::<Source>(), 20);
}

#[test]
fn memory_that_is_taken() {
    let mut w = World::new();
    assert_eq!(w.mem_bytes(), 65_536 * 4);
    assert!(w.can_reserve(1000, 100, 10, 1));
    w.reserve(1000, 100, 10, 1);
    let c = w.capacities();
    assert!(c.belts >= 1000 && c.machines >= 100 && c.sinks >= 10 && c.sources >= 1);
    assert!(c.runs >= 1008 && c.wheel >= 65_536);
    assert_eq!(
        w.mem_bytes(),
        c.belts * 36 + c.machines * 28 + c.sinks * 16 + c.sources * 20 + c.runs * 12
            + c.run_free * 4 + c.wheel * 4
    );
    assert_eq!(c.bytes(), w.mem_bytes());
    assert!(w.mem_bytes() >= 65_536 * 4 + 1000 * 36 + 100 * 28 + 10 * 16 + 20 + 1008 * 12);
    assert_eq!(w.node_count(), 0);
    assert_eq!(w.state_hash(), 0xaf63_bd4c_8601_b7df);
}

#[test]
fn memory_that_cannot_be_had() {
    let w = World::new();
    assert!(w.can_reserve(0, 0, 0, 0));
    assert!(w.mem_bytes() >= 4 * 65_536);
    assert!(!w.can_reserve(usize::MAX, 0, 0, 0));
    assert!(!w.can_reserve(usize::MAX - 8, 0, 0, 0));
    assert!(!w.can_reserve(0, usize::MAX / 28, 0, 0));
    assert!(!w.can_reserve(0, 0, usize::MAX / 16, 0));
    assert!(!w.can_reserve(0, 0, 0, usize::MAX / 20));
}

// ----------------------------------------------------------------- sort and heap

#[test]
fn identifiers_are_sorted_by_kind_and_index() {
    let mut scratch = vec![1, 2, 3];
    let mut a = vec![
        mkid(K_SRC, 0),
        mkid(K_BELT, 9000),
        mkid(K_MACH, 8191),
        mkid(K_BELT, 3),
        mkid(K_MACH, 8192),
        mkid(K_BELT, 0),
    ];
    radix_sort(&mut a, &mut scratch);
    assert_eq!(
        a,
        vec![
            mkid(K_BELT, 0),
            mkid(K_BELT, 3),
            mkid(K_BELT, 9000),
            mkid(K_MACH, 8191),
            mkid(K_MACH, 8192),
            mkid(K_SRC, 0),
        ]
    );
    let mut none: Vec<u32> = Vec::new();
    radix_sort(&mut none, &mut scratch);
    assert!(none.is_empty());
    assert!(scratch.is_empty());
    // Every bit of an index counts.
    let mut b = vec![0x100_0000, 1, 0x200_0000, 0x100_0001, 0x2000, 0x3fff_ffff, 0x400_0000, 1];
    radix_sort(&mut b, &mut scratch);
    assert_eq!(b, vec![1, 1, 0x2000, 0x100_0000, 0x100_0001, 0x200_0000, 0x400_0000, 0x3fff_ffff]);
    assert_eq!(scratch.len(), 8);
}

#[test]
fn timers_come_out_in_their_order() {
    let mut h = TimerHeap::new();
    assert_eq!(h.peek(), None);
    for (tick, id) in [(70_000, 3), (66_000, 9), (70_000, 1), (90_000, 0), (66_000, 2)] {
        h.push(tick, id);
    }
    assert_eq!(h.peek(), Some((66_000, 2)));
    let mut out = Vec::new();
    while h.peek().is_some() {
        out.push(h.pop());
    }
    assert_eq!(out, vec![(66_000, 2), (66_000, 9), (70_000, 1), (70_000, 3), (90_000, 0)]);
}
