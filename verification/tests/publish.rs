use mlatd::cluster::{clusters, settle, Arrival, Timed};
use mlatd::frames::{Airborne, Frame};
use mlatd::geo::{Ecef, Geodetic, Real};
use mlatd::state::intake::SyncFix;
use mlatd::state::publish::{Attempt, Start};
use mlatd::state::verdict::{Solution, Verdict};
use mlatd::state::{Entry, ReceiverInfo, RxRef, State};

const SECOND: i64 = 1_000_000_000;
const SECOND_FS: i128 = 1_000_000_000_000_000;
const ICAO: u32 = 0x3c6444;
/// 2023-11-14 22:13:20 UTC.
const T0: i64 = 1_700_000_000;

fn bits(x: f64) -> Real {
    Real { bits: x.to_bits() }
}

fn place(lat: f64, lon: f64) -> Geodetic {
    Geodetic {
        lat_deg: bits(lat),
        lon_deg: bits(lon),
        alt_m: bits(0.0),
    }
}

fn info(i: usize) -> ReceiverInfo {
    ReceiverInfo {
        user: format!("u{i}"),
        uid: 10 + i as u64,
        uuid: None,
        privacy: false,
        connection_info: String::new(),
        source_ip: String::new(),
        source_port: 0,
        geo: place(i as f64, 0.0),
        ecef: Ecef {
            x: bits(0.0),
            y: bits(0.0),
            z: bits(0.0),
        },
        freq_hz: 12_000_000,
        gps: false,
        jitter_fs: 150_000_000,
    }
}

/// A shard with `n` receivers that knows the altitude of the aircraft.
fn shard(n: usize, mlat_adsb: bool) -> (State<u32>, Vec<RxRef>) {
    let mut s = State::new(3, mlat_adsb, false);
    let refs: Vec<RxRef> = (0..n).map(|i| s.add_receiver(info(i))).collect();
    s.on_mlat(
        refs[0],
        Frame::Altitude(Some((ICAO, Some(35_000)))),
        "20000f1f10ce93",
        0,
        T0 * SECOND,
        0,
    );
    (s, refs)
}

/// Receiver `i` hears the frame `i` nanoseconds in, with a sigma that falls
/// with `i`; it comes in 0.25 s after it was sent.
fn heard(n: usize) -> Vec<Arrival> {
    (0..n)
        .map(|i| Arrival {
            rx: i,
            t_fs: 1000 * SECOND_FS + i as i128 * 1_000_000,
            sigma_fs: 200_000_000 - i as i128,
            at: T0 * SECOND + SECOND / 4,
        })
        .collect()
}

fn found(err_m: u64, moved_m: u64, residuals: Vec<i128>) -> Option<Solution> {
    Some(Solution {
        pos: place(47.0, -1.5),
        err_um: err_m * 1_000_000,
        residuals_fs: residuals,
        aside_fs: Vec::new(),
        moved_um: moved_m * 1_000_000,
        lat: "47.00000".into(),
        lon: "-1.50000".into(),
        err: format!("{err_m}.0"),
        off: "12.3".into(),
    })
}

fn now(seconds: i64) -> i64 {
    (T0 + seconds) * SECOND
}

fn open(s: &mut State<u32>, n: usize, t: i64) -> Option<Attempt> {
    s.open_cluster(ICAO, false, 0, &heard(n), t)
}

#[test]
fn a_fix_is_published_as_row_feed_message_and_result() {
    let (mut s, _) = shard(5, false);
    let att = open(&mut s, 5, now(1)).unwrap();
    assert_eq!(att.obs.len(), 5);
    assert!(matches!(&att.start, Start::Centroid(g) if g.len() == 5 && g[4] == place(4.0, 0.0)));
    assert_eq!(att.sighting.stamp_fs, T0 as i128 * SECOND_FS + SECOND_FS / 4);
    let v = s.conclude(&att, found(100, 0, Vec::new()), &vec![10, 12]);
    let Verdict::Fix(row) = v else {
        panic!("a fix is published");
    };
    assert_eq!((row.shard, row.icao), (3, ICAO));
    assert_eq!((row.lat, row.lon), (bits(47.0), bits(-1.5)));
    assert_eq!(
        row.csv_line,
        "1700000000.250,3c6444,,,47.00000,-1.50000,35000,100.0,5,5,\"u0,u1,u2,u3,u4\",1,\n"
    );
    assert!(row.filtered_line.is_none());
    assert_eq!(
        row.published.sbs_line,
        "MSG,3,1,1,3C6444,1,2023/11/14,22:13:20.250,2023/11/14,22:13:20.250,,35000,,,47.00000,-1.50000,,,,,,0\r\n"
    );
    assert_eq!(
        row.published.result_line,
        "{\"result\":{\"@\":1700000000.250,\"addr\":\"3c6444\",\"lat\":47.00000,\"lon\":-1.50000,\"alt\":35000,\"callsign\":null,\"squawk\":null,\"hdop\":0.0,\"vdop\":0.0,\"tdop\":0.0,\"gdop\":0.0,\"nstations\":5}}\n"
    );
    assert!(row.published.is_for(12) && !row.published.is_for(11));
    assert_eq!((s.stats_solved, s.stats_rejected), (1, 0));
    let (_, aircraft) = s.state_json(now(3));
    let fix = aircraft[0].fix.as_ref().unwrap();
    assert_eq!(fix.age_tenths, 20);
    assert_eq!(fix.alt_ft, Some(35_000));
    assert!(fix.motion.is_none());
    assert_eq!(aircraft[0].mlat_results, 1);
}

#[test]
fn three_receivers_are_too_few() {
    let (mut s, _) = shard(5, false);
    assert!(open(&mut s, 3, now(1)).is_none());
    // A receiver counts once, and a disconnected one not at all.
    let mut cluster = heard(4);
    cluster[3].rx = 0;
    assert!(s.open_cluster(ICAO, false, 0, &cluster, now(1)).is_none());
    assert_eq!(s.stats_rejected, 0);
}

#[test]
fn a_disconnected_receiver_is_left_out() {
    let (mut s, refs) = shard(6, false);
    s.remove_receiver(refs[2]);
    let att = open(&mut s, 6, now(1)).unwrap();
    let ids: Vec<usize> = att.obs.iter().map(|o| o.rx).collect();
    assert_eq!(ids, [0, 1, 3, 4, 5]);
    assert_eq!(att.sighting.users, ["u0", "u1", "u3", "u4", "u5"]);
}

#[test]
fn a_solve_starts_in_the_middle_of_its_own_receivers() {
    let (mut s, refs) = shard(6, false);
    // u1 leaves, and comes back from elsewhere into another slot: its old record
    // still stands in the free one before.
    s.remove_receiver(refs[1]);
    s.remove_receiver(refs[5]);
    let mut back = info(1);
    back.geo = place(50.0, 5.0);
    assert_eq!(s.add_receiver(back).idx, 5);
    assert_eq!(s.receivers[1].user, "u1");
    let att = open(&mut s, 6, now(1)).unwrap();
    let Start::Centroid(homes) = &att.start else {
        panic!("no fix to start from");
    };
    let expected = [0.0, 2.0, 3.0, 4.0].map(|lat| place(lat, 0.0));
    assert_eq!(homes[..4], expected);
    assert_eq!(homes[4], place(50.0, 5.0));
}

#[test]
fn the_sixteen_most_precise_are_kept_in_order() {
    let (mut s, _) = shard(20, false);
    let att = open(&mut s, 20, now(1)).unwrap();
    let ids: Vec<usize> = att.obs.iter().map(|o| o.rx).collect();
    let expected: Vec<usize> = (4..20).collect();
    assert_eq!(ids, expected);
    // Of equally precise ones the first are kept.
    let (mut s, _) = shard(20, false);
    let mut cluster = heard(20);
    for a in cluster.iter_mut() {
        a.sigma_fs = 7;
    }
    let att = s.open_cluster(ICAO, false, 0, &cluster, now(1)).unwrap();
    let ids: Vec<usize> = att.obs.iter().map(|o| o.rx).collect();
    let expected: Vec<usize> = (0..16).collect();
    assert_eq!(ids, expected);
}

#[test]
fn solves_of_one_aircraft_keep_their_distance() {
    let (mut s, _) = shard(5, false);
    assert!(open(&mut s, 5, now(1)).is_some());
    assert!(open(&mut s, 5, now(1) + 399_999_999).is_none());
    assert!(open(&mut s, 5, now(1) + 400_000_000).is_some());
    assert_eq!(s.stats_rejected, 0);
}

#[test]
fn a_solve_without_redundancy_waits_until_the_track_is_starved() {
    let (mut s, _) = shard(5, false);
    let att = open(&mut s, 5, now(1)).unwrap();
    s.conclude(&att, found(10, 0, Vec::new()), &Vec::new());
    assert!(open(&mut s, 4, now(30)).is_none());
    assert_eq!(s.stats_rejected, 1);
    let att = open(&mut s, 4, now(31)).unwrap();
    assert!(matches!(att.start, Start::Warm(p) if p == place(47.0, -1.5)));
    assert_eq!(att.last_pos, Some(place(47.0, -1.5)));
    let att = open(&mut s, 5, now(61)).unwrap();
    assert!(matches!(att.start, Start::Centroid(_)), "too old to start from");
}

#[test]
fn an_aircraft_without_altitude_waits() {
    let mut s: State<u32> = State::new(0, false, false);
    for i in 0..5 {
        s.add_receiver(info(i));
    }
    assert!(open(&mut s, 5, now(1)).is_none());
    assert_eq!(s.stats_rejected, 0);
}

#[test]
fn the_gates_refuse_what_is_imprecise_or_too_soon() {
    let (mut s, _) = shard(5, false);
    let att = open(&mut s, 5, now(0)).unwrap();
    assert!(matches!(s.conclude(&att, None, &Vec::new()), Verdict::Nothing));
    assert_eq!(s.stats_rejected, 1);
    let mut wide = found(10_000, 0, Vec::new());
    if let Some(w) = wide.as_mut() {
        w.err_um += 1;
    }
    assert!(matches!(s.conclude(&att, wide, &Vec::new()), Verdict::Nothing));
    assert_eq!(s.stats_rejected, 2);
    assert!(matches!(
        s.conclude(&att, found(10_000, 0, Vec::new()), &Vec::new()),
        Verdict::Fix(_)
    ));
    // 150 m of error need 2 s of silence.
    let att = open(&mut s, 5, now(2) - 1).unwrap();
    assert!(matches!(
        s.conclude(&att, found(150, 0, Vec::new()), &Vec::new()),
        Verdict::Nothing
    ));
    assert_eq!((s.stats_solved, s.stats_rejected), (1, 3));
    let att = open(&mut s, 5, now(3)).unwrap();
    assert!(matches!(
        s.conclude(&att, found(150, 0, Vec::new()), &Vec::new()),
        Verdict::Fix(_)
    ));
    assert_eq!((s.stats_solved, s.stats_rejected), (2, 3));
}

#[test]
fn five_impossible_speeds_in_a_row_start_the_track_over() {
    let (mut s, _) = shard(5, false);
    let att = open(&mut s, 5, now(0)).unwrap();
    s.conclude(&att, found(1, 0, Vec::new()), &Vec::new());
    for i in 1..=5 {
        // 401 m/s against the one accepted fix.
        let att = open(&mut s, 5, now(i)).unwrap();
        assert!(att.last_pos.is_some());
        let v = s.conclude(&att, found(1, 401 * i as u64, Vec::new()), &Vec::new());
        assert!(matches!(v, Verdict::Nothing));
    }
    assert_eq!((s.stats_solved, s.stats_rejected), (1, 5));
    let att = open(&mut s, 5, now(6)).unwrap();
    assert!(att.last_pos.is_none(), "started over");
    let v = s.conclude(&att, found(1, 1_000_000, Vec::new()), &Vec::new());
    assert!(matches!(v, Verdict::Fix(_)));
}

#[test]
fn four_hundred_metres_per_second_pass() {
    let (mut s, _) = shard(5, false);
    let att = open(&mut s, 5, now(0)).unwrap();
    s.conclude(&att, found(1, 0, Vec::new()), &Vec::new());
    let att = open(&mut s, 5, now(1)).unwrap();
    let v = s.conclude(&att, found(1, 400, Vec::new()), &Vec::new());
    assert!(matches!(v, Verdict::Fix(_)));
    // From 30 s on any speed passes.
    let att = open(&mut s, 5, now(31)).unwrap();
    let v = s.conclude(&att, found(1, 1_000_000, Vec::new()), &Vec::new());
    assert!(matches!(v, Verdict::Fix(_)));
    let (_, aircraft) = s.state_json(now(31));
    let motion = aircraft[0].fix.as_ref().unwrap().motion.as_ref().unwrap();
    assert_eq!(motion.dt_ns, 30 * SECOND);
    assert_eq!(motion.from, place(47.0, -1.5));
}

#[test]
fn residuals_teach_a_bias_and_scatter_puts_a_receiver_out() {
    let (mut s, refs) = shard(6, false);
    // Receiver 5 is off by 10 microseconds, now this way, now that.
    for i in 0..40 {
        let att = open(&mut s, 6, now(i)).unwrap();
        let mut r = vec![100; att.obs.len()];
        if r.len() == 6 {
            r[5] = if i % 2 == 0 { 10_000_000_000 } else { -10_000_000_000 };
        }
        s.conclude(&att, found(1, 0, r), &Vec::new());
    }
    assert!(s.receiver_stats(refs[5]).unwrap().quarantined);
    assert!(!s.receiver_stats(refs[0]).unwrap().quarantined);
    let att = open(&mut s, 6, now(100)).unwrap();
    assert_eq!(att.obs.len(), 5, "left out of the solve");
    assert_eq!(att.aside.len(), 1);
    assert_eq!(att.aside[0].rx, 5, "and compared with it");
    // The others' times carry their learned bias: a tenth of each residual.
    assert_eq!(att.obs[0].t_fs, 1000 * SECOND_FS + 40 * 10);
    let json = s.sync_json();
    assert_eq!((json[5].bad_syncs, json[0].bad_syncs), (4, 0));
    let (clients, _) = s.state_json(now(100));
    assert_eq!(clients[5].bad_sync_timeout, 60);
}

#[test]
fn a_receiver_that_was_left_out_comes_back() {
    let (mut s, refs) = shard(6, false);
    for i in 0..40 {
        let att = open(&mut s, 6, now(i)).unwrap();
        let mut r = vec![0; att.obs.len()];
        if r.len() == 6 {
            r[5] = if i % 2 == 0 { 20_000_000_000 } else { -20_000_000_000 };
        }
        s.conclude(&att, found(1, 0, r), &Vec::new());
    }
    assert!(s.receiver_stats(refs[5]).unwrap().quarantined);
    // Its clock has settled: its arrivals are where the fixes put them.
    let mut rounds = 0;
    while s.receiver_stats(refs[5]).unwrap().quarantined {
        let att = open(&mut s, 6, now(100 + rounds)).unwrap();
        assert_eq!((att.obs.len(), att.aside.len()), (5, 1));
        let mut sol = found(1, 0, vec![0; 5]);
        if let Some(x) = sol.as_mut() {
            x.aside_fs = vec![0];
        }
        s.conclude(&att, sol, &Vec::new());
        rounds += 1;
        assert!(rounds < 300, "it must come back");
    }
    let att = open(&mut s, 6, now(1000)).unwrap();
    assert_eq!((att.obs.len(), att.aside.len()), (6, 0));
}

#[test]
fn a_poor_solve_teaches_nothing() {
    let (mut s, _) = shard(6, false);
    let att = open(&mut s, 6, now(0)).unwrap();
    s.conclude(&att, found(500, 0, vec![1000; 6]), &Vec::new());
    let att = open(&mut s, 6, now(20)).unwrap();
    assert_eq!(att.obs[1].t_fs, 1000 * SECOND_FS + 1_000_000);
    s.conclude(&att, found(1, 0, vec![1000; 5]), &Vec::new());
    let att = open(&mut s, 6, now(40)).unwrap();
    assert_eq!(att.obs[1].t_fs, 1000 * SECOND_FS + 1_000_000);
    s.conclude(&att, found(499, 0, vec![1000; 6]), &Vec::new());
    let att = open(&mut s, 6, now(60)).unwrap();
    assert_eq!(att.obs[1].t_fs, 1000 * SECOND_FS + 1_000_000 + 100);
}

#[test]
fn the_stamp_follows_the_fastest_path() {
    let (mut s, _) = shard(5, false);
    let att = open(&mut s, 5, now(1)).unwrap();
    let first = att.sighting.stamp_fs;
    // The same arrivals come in 0.1 s sooner: the offset snaps down.
    let mut cluster = heard(5);
    for a in cluster.iter_mut() {
        a.at -= SECOND / 10;
    }
    let att = s.open_cluster(ICAO, false, 0, &cluster, now(2)).unwrap();
    assert_eq!(att.sighting.stamp_fs, first - SECOND_FS / 10);
    // And now later again: it rises by a thousandth of the difference.
    let att = open(&mut s, 5, now(3)).unwrap();
    assert_eq!(att.sighting.stamp_fs, first - SECOND_FS / 10 + SECOND_FS / 10_000);
    let offset = (T0 as i128 * SECOND_FS + SECOND_FS / 4) - 1000 * SECOND_FS;
    assert_eq!(s.offset_of(0), Some(offset - SECOND_FS / 10 + SECOND_FS / 10_000));
    assert_eq!(s.offset_of(1), None);
    // Another reference has an offset of its own.
    let att = s.open_cluster(ICAO, false, 1, &heard(5), now(4)).unwrap();
    assert_eq!(att.sighting.stamp_fs, first);
}

#[test]
fn a_df17_fix_is_scored_and_kept_in() {
    let (mut s, refs) = shard(5, true);
    let half = |odd| {
        Some(Airborne {
            icao: ICAO,
            odd,
            alt_ft: None,
        })
    };
    let fix = SyncFix {
        claimed: place(46.0, -1.0),
        arrival_fs: 1,
        even_fs: 1,
        odd_fs: 1,
    };
    let (em, om) = ("8d3c6444580f0e0c1e9f2b6a5b1c", "8d3c6444580f060c1e9f2b6a5b1c");
    s.on_sync(refs[0], em, om, half(false), half(true), Some(fix), now(0), 0);
    let ready = s.sweep(0, 0);
    assert!(ready.iter().any(|(k, g)| k == em && g.df17), "the even frame is grouped too");
    let att = s.open_cluster(ICAO, true, 0, &heard(5), now(5) - 1).unwrap();
    assert_eq!(att.claimed, Some(place(46.0, -1.0)));
    let v = s.conclude(&att, found(100, 0, vec![50; 5]), &vec![10]);
    let Verdict::SelfTruth(line) = v else {
        panic!("a scored fix");
    };
    assert_eq!(line, "1700000000.250,3c6444,12.3,100.0,5\n");
    assert_eq!((s.stats_solved, s.stats_rejected), (0, 0));
    // Five seconds on, the claim is too old to score with.
    let att = s.open_cluster(ICAO, true, 0, &heard(5), now(5)).unwrap_or_else(|| {
        s.open_cluster(ICAO, true, 0, &heard(5), now(6)).unwrap()
    });
    assert_eq!(att.claimed, None);
    let v = s.conclude(&att, found(100, 0, Vec::new()), &vec![10]);
    assert!(matches!(v, Verdict::Nothing));
    let att = s.open_cluster(ICAO, true, 0, &heard(5), now(7)).unwrap();
    assert_eq!(att.obs[0].t_fs, 1000 * SECOND_FS + 5, "biases learn from it");
    assert!(att.last_pos.is_none(), "and the track does not");
}

#[test]
fn arrivals_are_converted_directly_or_by_the_best_way_around() {
    let e = Entry {
        rx: RxRef { idx: 2, gen: 9 },
        t_fs: 77,
        at: 5,
    };
    let way = |t_fs, sigma_fs| Timed { t_fs, sigma_fs };
    let own = settle(&e, 2, 30, None, &Vec::new()).unwrap();
    assert_eq!((own.t_fs, own.sigma_fs, own.at), (77, 30, 5));
    let direct = settle(&e, 1, 30, Some(way(80, 40)), &vec![way(81, 1)]).unwrap();
    assert_eq!((direct.t_fs, direct.sigma_fs), (80, 40));
    let floor = settle(&e, 1, 30, Some(way(80, 20)), &Vec::new()).unwrap();
    assert_eq!(floor.sigma_fs, 30, "never below the jitter");
    let around = settle(&e, 1, 30, None, &vec![way(1, 60), way(2, 50), way(3, 50)]).unwrap();
    assert_eq!((around.t_fs, around.sigma_fs), (2, 50));
    assert!(settle(&e, 1, 30, None, &Vec::new()).is_none());
}

#[test]
fn clusters_part_at_the_span() {
    let ms: i128 = 1_000_000_000_000;
    let a = |rx, t_fs| Arrival {
        rx,
        t_fs,
        sigma_fs: 1,
        at: 0,
    };
    let few = vec![a(0, 0), a(1, 0), a(2, 0)];
    assert!(clusters(&few).is_empty());
    let list = vec![
        a(0, 5 * ms),
        a(1, 0),
        a(2, 5 * ms / 2),
        a(3, 5 * ms / 2 + 1),
        a(4, 0),
        a(5, 5 * ms),
    ];
    let parts = clusters(&list);
    let ids: Vec<Vec<usize>> = parts
        .iter()
        .map(|c| c.iter().map(|x| x.rx).collect())
        .collect();
    assert_eq!(ids, vec![vec![1, 4, 2], vec![3, 0, 5]]);
    // Times at the ends of the clock are far apart.
    let ends = vec![a(0, i128::MAX), a(1, i128::MIN), a(2, i128::MAX), a(3, 0)];
    assert_eq!(clusters(&ends).len(), 3);
}
