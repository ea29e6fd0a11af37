use mlatd::cluster::MIN_RECEIVERS;
use mlatd::frames::{Airborne, Frame};
use mlatd::geo::{Ecef, Geodetic, Real};
use mlatd::output::Published;
use mlatd::state::intake::SyncFix;
use mlatd::state::{ReceiverInfo, RxRef, State};

fn bits(x: f64) -> Real {
    Real { bits: x.to_bits() }
}

fn geo() -> Geodetic {
    Geodetic {
        lat_deg: bits(47.0),
        lon_deg: bits(-1.5),
        alt_m: bits(40.0),
    }
}

fn rx_info(user: &str) -> ReceiverInfo {
    ReceiverInfo {
        user: user.into(),
        uid: 0,
        uuid: None,
        privacy: false,
        connection_info: String::new(),
        source_ip: "127.0.0.1".into(),
        source_port: 0,
        geo: geo(),
        ecef: Ecef {
            x: bits(0.0),
            y: bits(0.0),
            z: bits(0.0),
        },
        freq_hz: 12_000_000,
        gps: false,
        jitter_fs: 150_000_000,
    }
}

fn state() -> State<u32> {
    State::new(0, false, false)
}

fn sync_fix(t: i128) -> SyncFix {
    SyncFix {
        claimed: geo(),
        arrival_fs: t,
        even_fs: t + 1,
        odd_fs: t + 2,
    }
}

fn half(icao: u32, odd: bool) -> Option<Airborne> {
    Some(Airborne {
        icao,
        odd,
        alt_ft: Some(35_000),
    })
}

const EVEN: &str = "8d3c6444580f0e0c1e9f2b6a5b1c";
const ODD: &str = "8d3c6444580f060c1e9f2b6a5b1c";

#[test]
fn slots_are_reused_after_removal() {
    let mut s = state();
    let a = s.add_receiver(rx_info("a"));
    let b = s.add_receiver(rx_info("b"));
    assert_eq!((a.idx, b.idx), (0, 1));
    s.remove_receiver(a);
    assert_eq!(s.live_receivers(), 1);
    let c = s.add_receiver(rx_info("c"));
    assert_eq!(c.idx, a.idx, "freed slot is reused");
    assert_ne!(c.gen, a.gen, "reuse bumps the generation");
    assert_eq!(s.receivers.len(), 2, "no growth on reconnect churn");
}

#[test]
fn same_user_reconnect_replaces_the_old_slot() {
    let mut s = state();
    let a = s.add_receiver(rx_info("stn"));
    let b = s.add_receiver(rx_info("stn"));
    assert_eq!(s.live_receivers(), 1);
    assert_eq!(b.idx, a.idx, "same user takes the same slot back");
    assert_ne!(b.gen, a.gen);
    // The zombie connection's teardown must not free the new slot.
    s.remove_receiver(a);
    assert_eq!(s.live_receivers(), 1);
}

#[test]
fn stale_generation_messages_are_ignored() {
    let mut s = state();
    let a = s.add_receiver(rx_info("a"));
    s.remove_receiver(a);
    let b = s.add_receiver(rx_info("b"));
    assert_eq!(b.idx, a.idx);
    s.clock_reset(a); // stale; must not touch b's pairs
    s.on_mlat(
        a,
        Frame::Altitude(Some((0x00ab_cdef, Some(3000)))),
        "20000f1f10ce93",
        1000,
        0,
        0,
    );
    assert!(s.sweep(0, 0).is_empty());
    assert_eq!(s.stats_solved + s.stats_rejected, 0);
    let list = s.sync_json();
    let users: Vec<&str> = list
        .iter()
        .map(|r| s.receivers[r.rx].user.as_str())
        .collect();
    assert_eq!(users, ["b"], "sync.json lists only live receivers");
    let _ = b;
}

#[test]
fn results_go_to_the_receivers_that_heard_the_message() {
    let mut s = state();
    let mut refs = Vec::new();
    for (i, u) in ["a", "b", "c", "d", "far"].iter().enumerate() {
        let mut info = rx_info(u);
        info.uid = 100 + i as u64;
        refs.push(s.add_receiver(info));
    }
    // a..d hear one DF11; "far" hears nothing.
    for r in &refs[..4] {
        s.on_mlat(*r, Frame::AllCall(Some(0x3c6444)), "5d3c6444aabbcc", 1000, 0, 0);
    }
    s.remove_receiver(refs[3]); // gone before the solve
    let ready = s.sweep(0, 0);
    assert_eq!(ready.len(), 1);
    assert_eq!(ready[0].0, "5d3c6444aabbcc");
    let mut members: Vec<RxRef> = ready[0].1.entries.iter().map(|e| e.rx).collect();
    members.dedup();
    let p = Published {
        sbs_line: String::new(),
        result_line: String::new(),
        recipients: s.recipients(&members),
    };
    assert!(p.is_for(100) && p.is_for(101) && p.is_for(102));
    assert!(!p.is_for(103), "disconnected receiver");
    assert!(!p.is_for(104), "a receiver that did not hear it");
}

#[test]
fn sync_json_carries_bad_syncs_and_fudged_position() {
    let mut s = state();
    s.add_receiver(rx_info("alice"));
    let mut p = rx_info("private");
    p.privacy = true;
    s.add_receiver(p);
    let j = s.sync_json();
    assert_eq!(j[0].bad_syncs, 0);
    let (north, east) = j[0].offset.unwrap();
    // The shown point: the grid point, moved back by a cell and into it.
    let shown = |v: f64, step: u64| {
        let off = -1.0 / 20.0 + step as f64 / 10_000.0 / 20.0;
        (((v * 20.0).round() / 20.0 + off) * 100.0).round() / 100.0
    };
    let (lat, lon) = (shown(47.0, north), shown(-1.5, east));
    assert!(
        (lat - 47.0).abs() <= 0.06 && (lon + 1.5).abs() <= 0.06,
        "{lat} {lon}"
    );
    assert!(j[1].offset.is_none());
    // Deterministic: the same user gets the same point every time.
    let mut again = state();
    again.add_receiver(rx_info("alice"));
    assert_eq!(again.sync_json()[0].offset, j[0].offset);
    assert_eq!(j[0].offset, Some((6183, 5034)));
}

#[test]
fn state_json_reports_clients_and_aircraft_in_mlat_server_shape() {
    let mut s = state();
    let mut a_info = rx_info("alice");
    a_info.uid = 7;
    a_info.uuid = Some("u-a".into());
    let a = s.add_receiver(a_info);
    let _b = s.add_receiver(rx_info("bob"));
    // A DF11 all-call from 3c6444, heard by alice only.
    s.on_mlat(a, Frame::AllCall(Some(0x3c6444)), "5d3c6444aabbcc", 1000, 0, 0);
    let (clients, aircraft) = s.state_json(0);
    let alice = &clients[0];
    let info = s.receiver(alice.rx).unwrap();
    assert_eq!(info.user, "alice");
    assert_eq!(info.uid, 7);
    assert_eq!(info.uuid.as_deref(), Some("u-a"));
    assert_eq!(f64::from_bits(info.geo.lat_deg.bits), 47.0);
    assert_eq!(f64::from_bits(info.geo.lon_deg.bits), -1.5);
    assert_eq!(alice.message_rate, 0); // 1 message / 15 s rounds down
    assert_eq!(alice.user, "alice");
    assert_eq!(alice.mlat_interest, ["3c6444"]);
    assert!(alice.sync_interest.is_empty());
    assert_eq!(alice.bad_sync_timeout, 0);
    assert!(clients[1].mlat_interest.is_empty());
    let ac = &aircraft[0];
    assert_eq!(aircraft.len(), 1);
    assert_eq!(ac.icao, 0x3c6444);
    assert_eq!(ac.key, "3C6444");
    assert_eq!((ac.allow_mlat, ac.kalman_count, ac.adsb_seen), (1, 0, 0));
    assert_eq!(ac.tracking.len(), 1);
    assert_eq!(ac.mlat_interest, 1);
    assert!(ac.interesting);
    assert_eq!(ac.mlat_messages, 1);
    assert_eq!(ac.mlat_results, 0);
    assert!(ac.fix.is_none(), "no fix yet, no position");
    assert!(ac.tracking_receivers.is_none(), "fresh aircraft");
}

#[test]
fn an_unknown_reference_is_not_live() {
    let mut s = state();
    assert!(!s.live(RxRef { idx: 0, gen: 0 }));
    let a = s.add_receiver(rx_info("a"));
    assert!(s.live(a));
    assert!(!s.live(RxRef { idx: 0, gen: 1 }));
    assert!(!s.live(RxRef { idx: 1, gen: 0 }));
    assert!(s.receiver_stats(RxRef { idx: 1, gen: 0 }).is_none());
    assert!(s.receiver(1).is_none());
}

#[test]
fn the_slot_freed_last_is_used_first() {
    let mut s = state();
    let refs: Vec<RxRef> = ["a", "b", "c"]
        .iter()
        .map(|u| s.add_receiver(rx_info(u)))
        .collect();
    s.remove_receiver(refs[0]);
    s.remove_receiver(refs[2]);
    assert_eq!(s.add_receiver(rx_info("d")).idx, 2);
    assert_eq!(s.add_receiver(rx_info("e")).idx, 0);
    assert_eq!(s.add_receiver(rx_info("f")).idx, 3);
    assert_eq!(s.live_receivers(), 4);
}

#[test]
fn a_shared_pair_trains_both_halves_with_every_earlier_reporter() {
    let mut s = state();
    let a = s.add_receiver(rx_info("a"));
    let b = s.add_receiver(rx_info("b"));
    let c = s.add_receiver(rx_info("c"));
    let even = half(0x3c6444, false);
    let odd = half(0x3c6444, true);
    let first = s.on_sync(a, EVEN, ODD, even, odd, Some(sync_fix(100)), 0, 0);
    assert!(first.is_empty(), "nobody to train with");
    let second = s.on_sync(b, EVEN, ODD, even, odd, Some(sync_fix(200)), 0, 0);
    assert_eq!(second.len(), 2);
    assert_eq!((second[0].rx, second[0].other), (b.idx, a.idx));
    assert_eq!((second[0].t_fs, second[0].other_fs), (201, 101));
    assert_eq!((second[1].t_fs, second[1].other_fs), (202, 102));
    assert_eq!(second[0].icao, 0x3c6444);
    s.remove_receiver(a);
    let third = s.on_sync(c, EVEN, ODD, even, odd, Some(sync_fix(300)), 0, 0);
    assert_eq!(third.len(), 2, "a is gone");
    assert_eq!(third[0].other, b.idx);
    let again = s.on_sync(b, EVEN, ODD, even, odd, Some(sync_fix(400)), 0, 0);
    assert_eq!(again.len(), 2, "not with itself");
    assert_eq!(again[0].other, c.idx);
}

#[test]
fn a_pair_that_does_not_hold_together_is_dropped() {
    let mut s = state();
    let a = s.add_receiver(rx_info("a"));
    let b = s.add_receiver(rx_info("b"));
    let even = half(0x3c6444, false);
    let odd = half(0x3c6444, true);
    let other = half(0x3c6445, true);
    s.on_sync(a, EVEN, ODD, even, odd, Some(sync_fix(1)), 0, 0);
    assert!(s.on_sync(b, "zz", ODD, even, odd, Some(sync_fix(2)), 0, 0).is_empty());
    assert!(s.on_sync(b, EVEN, "abc", even, odd, Some(sync_fix(2)), 0, 0).is_empty());
    assert!(s.on_sync(b, EVEN, ODD, odd, even, Some(sync_fix(2)), 0, 0).is_empty());
    assert!(s.on_sync(b, EVEN, ODD, even, other, Some(sync_fix(2)), 0, 0).is_empty());
    assert!(s.on_sync(b, EVEN, ODD, None, odd, Some(sync_fix(2)), 0, 0).is_empty());
    let (clients, _) = s.state_json(0);
    assert!(clients[b.idx].sync_interest.is_empty(), "nothing counted");
    // A pair without a position is counted and trains nobody.
    assert!(s.on_sync(b, EVEN, ODD, even, odd, None, 0, 0).is_empty());
    let (clients, _) = s.state_json(0);
    assert_eq!(clients[b.idx].sync_interest, ["3c6444"]);
}

#[test]
fn a_sync_pair_takes_fifteen_reporters() {
    let mut s = state();
    let even = half(0x3c6444, false);
    let odd = half(0x3c6444, true);
    for i in 0..20 {
        let r = s.add_receiver(rx_info(&format!("u{i}")));
        let jobs = s.on_sync(r, EVEN, ODD, even, odd, Some(sync_fix(i as i128)), 0, 0);
        let expected = if i < 15 { 2 * i } else { 0 };
        assert_eq!(jobs.len(), expected);
    }
}

#[test]
fn training_counts_and_clock_resets_forget() {
    let mut s = state();
    let a = s.add_receiver(rx_info("a"));
    let b = s.add_receiver(rx_info("b"));
    let even = half(0x3c6444, false);
    let odd = half(0x3c6444, true);
    s.on_sync(a, EVEN, ODD, even, odd, Some(sync_fix(1)), 0, 0);
    let jobs = s.on_sync(b, EVEN, ODD, even, odd, Some(sync_fix(2)), 0, 0);
    assert!(s.pair(b.idx, a.idx).is_none());
    s.train(&jobs[0], 10, 20, true);
    assert_eq!(s.take_pair(b.idx, a.idx), Some(10));
    assert_eq!(s.take_pair(a.idx, b.idx), Some(20));
    s.train(&jobs[1], 11, 21, false);
    assert_eq!(s.pair(b.idx, a.idx), Some(&11));
    assert_eq!(s.pair(a.idx, b.idx), Some(&21));
    assert_eq!((s.stats_sync_obs, s.sync_obs()), (2, 2));
    assert_eq!((s.solved(), s.rejected()), (0, 0));
    let st = s.receiver_stats(b).unwrap();
    assert_eq!(st.peers, 1);
    assert_eq!(st.score.find_percent_tenths(), 500);
    assert!(!st.quarantined);
    for _ in 0..40 {
        let again = s.receiver_stats(b).unwrap();
        assert_eq!(again.score.find_percent_tenths(), 500, "fading keeps the share");
    }
    // What has faded forty times weighs nothing beside one more.
    s.train(&jobs[1], 11, 21, true);
    assert_eq!(s.receiver_stats(b).unwrap().score.find_percent_tenths(), 0);
    s.put_pair(b.idx, a.idx, 12);
    assert_eq!(s.pair(b.idx, a.idx), Some(&12));
    s.clock_reset(a);
    assert!(s.pair(b.idx, a.idx).is_none() && s.pair(a.idx, b.idx).is_none());
    assert_eq!(s.receiver_stats(b).unwrap().peers, 0);
}

#[test]
fn frames_without_a_usable_address_are_dropped() {
    let mut s = state();
    let a = s.add_receiver(rx_info("a"));
    s.on_mlat(a, Frame::Position(Some(1)), EVEN, 0, 0, 0); // not asked for
    s.on_mlat(a, Frame::Altitude(None), "20000f1f10ce93", 0, 0, 0);
    s.on_mlat(a, Frame::AllCall(None), "5d3c6444aabbcc", 0, 0, 0);
    s.on_mlat(a, Frame::Other, "00", 0, 0, 0);
    s.on_mlat(a, Frame::AllCall(Some(1)), "5d3", 0, 0, 0); // odd length
    s.on_mlat(a, Frame::AllCall(Some(1)), "5g", 0, 0, 0); // no hex
    assert!(s.sweep(0, 0).is_empty());
    s.mlat_adsb = true;
    s.on_mlat(a, Frame::Position(Some(1)), EVEN, 0, 0, 0);
    let ready = s.sweep(0, 0);
    assert_eq!(ready.len(), 1);
    assert!(ready[0].1.df17);
}

#[test]
fn groups_wait_for_their_window_and_leave_once() {
    let mut s = state();
    let a = s.add_receiver(rx_info("a"));
    s.on_mlat(a, Frame::AllCall(Some(1)), "5d3c6444aabbcc", 5, 7, 1000);
    s.on_mlat(a, Frame::AllCall(Some(1)), "5d3c6444aabbcc", 6, 8, 1500);
    s.on_mlat(a, Frame::AllCall(Some(2)), "5d", 6, 8, 1500);
    assert!(s.sweep(1899, 900).is_empty());
    let ready = s.sweep(1900, 900);
    assert_eq!(ready.len(), 1);
    let g = &ready[0].1;
    assert_eq!((g.icao, g.df17, g.created), (1, false, 1000));
    assert_eq!(g.entries.len(), 2);
    assert_eq!((g.entries[1].t_fs, g.entries[1].at), (6, 8));
    assert_eq!(s.sweep(2400, 900).len(), 1);
    assert!(s.sweep(u64::MAX, 900).is_empty());
}

#[test]
fn a_sync_pair_waits_four_seconds() {
    let mut s = state();
    let a = s.add_receiver(rx_info("a"));
    let b = s.add_receiver(rx_info("b"));
    let even = half(0x3c6444, false);
    let odd = half(0x3c6444, true);
    s.on_sync(a, EVEN, ODD, even, odd, Some(sync_fix(1)), 0, 0);
    s.sweep(3_999_999_999, 0);
    assert_eq!(s.on_sync(b, EVEN, ODD, even, odd, Some(sync_fix(2)), 0, 0).len(), 2);
    s.sweep(4_000_000_000, 0);
    assert!(s.on_sync(b, EVEN, ODD, even, odd, Some(sync_fix(3)), 0, 0).is_empty());
}

#[test]
fn a_plan_needs_four_receivers_and_elects_the_best_connected() {
    let mut s = state();
    let refs: Vec<RxRef> = ["a", "b", "c", "d"]
        .iter()
        .enumerate()
        .map(|(i, u)| {
            let mut info = rx_info(u);
            info.uid = i as u64;
            s.add_receiver(info)
        })
        .collect();
    for r in &refs[..3] {
        s.on_mlat(*r, Frame::AllCall(Some(1)), "5d", 0, 0, 0);
    }
    let few = s.sweep(0, 0);
    assert!(s.plan(&few[0].1, &Vec::new()).is_none());
    for r in &refs {
        s.on_mlat(*r, Frame::AllCall(Some(1)), "5d", 0, 0, 0);
        s.on_mlat(*r, Frame::AllCall(Some(1)), "5d", 9, 0, 0);
    }
    let ready = s.sweep(0, 0);
    let g = &ready[0].1;
    assert_eq!(g.entries.len(), 8);
    let p = s.plan(g, &vec![(0, 1), (2, 1), (3, 2), (0, 2), (1, 1)]).unwrap();
    assert_eq!(p.members, [0, 1, 2, 3]);
    assert_eq!(p.members.len(), MIN_RECEIVERS);
    assert_eq!(p.recipients, [0, 1, 2, 3]);
    assert_eq!(p.reference, 2, "of equals the last");
    let p = s.plan(g, &Vec::new()).unwrap();
    assert_eq!(p.reference, 3, "with no model at all, the last member");
}

#[test]
fn a_newcomer_inherits_nothing_from_the_last_holder_of_its_slot() {
    let mut s = state();
    let mut info = rx_info("a");
    info.uid = 1;
    let a = s.add_receiver(info);
    let mut info = rx_info("b");
    info.uid = 2;
    let b = s.add_receiver(info);
    let even = half(0x3c6444, false);
    let odd = half(0x3c6444, true);
    s.on_mlat(a, Frame::AllCall(Some(0x3c6444)), "5d3c6444aabbcc", 1000, 0, 0);
    s.on_mlat(b, Frame::AllCall(Some(7)), "5d", 1000, 0, 0);
    s.on_sync(a, EVEN, ODD, even, odd, Some(sync_fix(100)), 0, 0);
    s.remove_receiver(a);
    let mut info = rx_info("c");
    info.uid = 3;
    let c = s.add_receiver(info);
    assert_eq!(c.idx, a.idx);
    // It hears nothing,
    let (clients, aircraft) = s.state_json(0);
    assert!(clients[c.idx].mlat_interest.is_empty() && clients[c.idx].sync_interest.is_empty());
    let ac = aircraft.iter().find(|r| r.icao == 0x3c6444).unwrap();
    assert_eq!((ac.tracking.len(), ac.mlat_interest, ac.sync_interest), (0, 0, 0));
    assert!(!ac.interesting);
    // is not trained on another clock's times,
    assert!(s.on_sync(b, EVEN, ODD, even, odd, Some(sync_fix(200)), 0, 0).is_empty());
    // and gets no result of what it did not hear.
    let ready = s.sweep(0, 0);
    let g = &ready.iter().find(|(k, _)| k == "5d3c6444aabbcc").unwrap().1;
    let heard: Vec<RxRef> = g.entries.iter().map(|e| e.rx).collect();
    assert!(s.recipients(&heard).is_empty());
    assert!(s.present(&heard).is_empty());
    // What it hears itself counts.
    s.on_mlat(c, Frame::AllCall(Some(0x3c6444)), "5d3c6444aabbcc", 5, 0, 0);
    let (_, aircraft) = s.state_json(0);
    let ac = aircraft.iter().find(|r| r.icao == 0x3c6444).unwrap();
    assert_eq!((ac.tracking.len(), ac.mlat_interest), (2, 1), "with b, by its pair");
}

#[test]
fn a_plan_leaves_out_who_has_left() {
    let mut s = state();
    let refs: Vec<RxRef> = (0..6)
        .map(|i| {
            let mut info = rx_info(&format!("u{i}"));
            info.uid = 10 + i;
            s.add_receiver(info)
        })
        .collect();
    for r in &refs[..5] {
        s.on_mlat(*r, Frame::AllCall(Some(1)), "5d", r.idx as i128, 0, 0);
    }
    s.remove_receiver(refs[1]);
    let mut info = rx_info("late");
    info.uid = 99;
    let late = s.add_receiver(info);
    assert_eq!(late.idx, refs[1].idx);
    let ready = s.sweep(0, 0);
    let p = s.plan(&ready[0].1, &Vec::new()).unwrap();
    assert_eq!(p.members, [0, 2, 3, 4]);
    assert_eq!(p.recipients, [10, 12, 13, 14]);
    let times: Vec<i128> = p.heard.iter().map(|e| e.t_fs).collect();
    assert_eq!(times, [0, 2, 3, 4]);
    s.remove_receiver(refs[0]);
    assert!(s.plan(&ready[0].1, &Vec::new()).is_none(), "three are left");
}

#[test]
fn references_never_repeat_and_slots_are_as_many_as_were_needed() {
    let mut s = state();
    let mut issued: Vec<RxRef> = Vec::new();
    let mut most = 0;
    for round in 0..20usize {
        for i in 0..(round % 5) {
            let r = s.add_receiver(rx_info(&format!("u{}", (round * 3 + i) % 7)));
            assert!(s.live(r) && !issued.contains(&r));
            issued.push(r);
            most = most.max(s.live_receivers());
        }
        if let Some(r) = issued.get(round) {
            s.remove_receiver(*r);
        }
        assert_eq!(s.receivers.len(), most);
    }
}

#[test]
fn fifteen_reporters_make_each_other_peers() {
    let mut s = state();
    let even = half(0x3c6444, false);
    let odd = half(0x3c6444, true);
    let refs: Vec<RxRef> = (0..17)
        .map(|i| s.add_receiver(rx_info(&format!("u{i}"))))
        .collect();
    for r in &refs {
        let jobs = s.on_sync(*r, EVEN, ODD, even, odd, Some(sync_fix(1)), 0, 0);
        for j in &jobs {
            s.train(j, 0, 0, true);
        }
    }
    assert_eq!(s.sync_obs(), 15 * 14);
    assert_eq!(s.receiver_stats(refs[0]).unwrap().peers, 14);
    assert_eq!(s.receiver_stats(refs[14]).unwrap().peers, 14);
    assert_eq!(s.receiver_stats(refs[15]).unwrap().peers, 0);
    let (clients, _) = s.state_json(0);
    assert_eq!(clients[16].sync_interest, ["3c6444"], "counted all the same");
}

#[test]
fn addresses_have_24_bits() {
    let mut s: State<u32> = State::new(0, true, false);
    let a = s.add_receiver(rx_info("a"));
    for frame in [
        Frame::AllCall(Some(0x100_0000)),
        Frame::Altitude(Some((u32::MAX, Some(1000)))),
        Frame::Position(Some(0x100_0000)),
    ] {
        assert!(frame.used_address(true).is_none());
        s.on_mlat(a, frame, "5d", 0, 0, 0);
    }
    assert!(s.state_json(0).1.is_empty());
    assert_eq!(Frame::AllCall(Some(0xff_ffff)).used_address(false), Some(0xff_ffff));
    s.on_mlat(a, Frame::AllCall(Some(0xff_ffff)), "5d", 0, 0, 0);
    assert_eq!(s.state_json(0).1.len(), 1);
}
