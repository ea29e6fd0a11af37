use mlatd::bias::RxBias;
use mlatd::binary::Double;
use mlatd::export::{merge, Told};
use mlatd::frames::Frame;
use mlatd::geo::{Ecef, Geodetic, Real};
use mlatd::lines::{heartbeat_line, stats_line};
use mlatd::mapping::map_offsets;
use mlatd::state::intake::Training;
use mlatd::state::{ReceiverInfo, State};
use mlatd::table::Table;
use mlatd::tally::{find_sync_bad, find_sync_count, Score, Tally};

const SECOND: i64 = 1_000_000_000;

fn zero() -> Real {
    Real { bits: 0 }
}

fn info(user: &str, uid: u64) -> ReceiverInfo {
    ReceiverInfo {
        user: user.into(),
        uid,
        uuid: None,
        privacy: false,
        connection_info: String::new(),
        source_ip: String::new(),
        source_port: 0,
        geo: Geodetic {
            lat_deg: zero(),
            lon_deg: zero(),
            alt_m: zero(),
        },
        ecef: Ecef {
            x: zero(),
            y: zero(),
            z: zero(),
        },
        freq_hz: 12_000_000,
        gps: false,
        jitter_fs: 150_000_000,
    }
}

fn job(rx: usize, other: usize) -> Training {
    Training {
        rx,
        other,
        t_fs: 0,
        other_fs: 0,
        icao: 1,
    }
}

#[test]
fn message_rates_round_and_start_over() {
    let mut s: State<u32> = State::new(0, false, false);
    let a = s.add_receiver(info("a", 1));
    for _ in 0..23 {
        s.on_mlat(a, Frame::AllCall(Some(9)), "5d", 0, 0, 0);
    }
    let (clients, aircraft) = s.state_json(0);
    assert_eq!(clients[0].message_rate, 2); // 23 / 15
    assert_eq!(aircraft[0].mlat_messages, 23);
    let (clients, aircraft) = s.state_json(0);
    assert_eq!(clients[0].message_rate, 0);
    assert_eq!(aircraft[0].mlat_messages, 23);
    for _ in 0..7 {
        s.on_mlat(a, Frame::AllCall(Some(9)), "5d", 0, 0, 0);
    }
    let (clients, _) = s.state_json(0);
    assert_eq!(clients[0].message_rate, 0); // 7 / 15
}

#[test]
fn interests_are_sorted_and_last_a_minute() {
    let mut s: State<u32> = State::new(0, false, false);
    let a = s.add_receiver(info("a", 1));
    for icao in [0xabc, 0x123, 0x456] {
        s.on_mlat(a, Frame::AllCall(Some(icao)), "5d", 0, 0, 0);
    }
    s.on_mlat(a, Frame::AllCall(Some(0x456)), "5d", 0, SECOND, 0);
    let (clients, _) = s.state_json(60 * SECOND - 1);
    assert_eq!(clients[0].mlat_interest, ["000123", "000456", "000abc"]);
    let (clients, aircraft) = s.state_json(60 * SECOND);
    assert_eq!(clients[0].mlat_interest, ["000456"]);
    assert_eq!(aircraft.len(), 3);
    let heard = aircraft.iter().filter(|r| r.interesting).count();
    assert_eq!(heard, 1);
}

#[test]
fn an_aircraft_is_forgotten_after_an_hour() {
    let mut s: State<u32> = State::new(0, false, false);
    let a = s.add_receiver(info("a", 42));
    s.on_mlat(a, Frame::AllCall(Some(7)), "5d", 0, 0, 0);
    let (_, aircraft) = s.state_json(600 * SECOND + 49_000_000);
    assert_eq!(aircraft[0].elapsed_tenths, 6000);
    assert!(aircraft[0].tracking_receivers.is_none());
    let (_, aircraft) = s.state_json(600 * SECOND + 50_000_000);
    assert_eq!(aircraft[0].elapsed_tenths, 6001);
    assert_eq!(aircraft[0].tracking_receivers.as_deref(), Some(&[][..]));
    assert_eq!(s.state_json(3600 * SECOND - 1).1.len(), 1);
    assert!(s.state_json(3600 * SECOND).1.is_empty());
}

#[test]
fn a_quiet_aircraft_names_its_receivers() {
    let mut s: State<u32> = State::new(0, false, false);
    let a = s.add_receiver(info("a", 42));
    let b = s.add_receiver(info("b", 41));
    s.on_mlat(b, Frame::AllCall(Some(7)), "5d", 0, 700 * SECOND, 0);
    s.on_mlat(a, Frame::AllCall(Some(7)), "5d", 0, 700 * SECOND, 0);
    // A late frame with an old time sets the last hearing back.
    let c = s.add_receiver(info("c", 43));
    s.on_mlat(c, Frame::AllCall(Some(7)), "5d", 0, 0, 0);
    let (_, aircraft) = s.state_json(710 * SECOND);
    assert_eq!(aircraft[0].elapsed_tenths, 7100);
    assert_eq!(aircraft[0].tracking, [0, 1]);
    assert_eq!(aircraft[0].tracking_receivers.as_deref(), Some(&[42, 41][..]));
}

#[test]
fn sync_counts_fade_by_a_fifth() {
    let mut s: State<u32> = State::new(0, false, false);
    s.add_receiver(info("a", 1));
    s.add_receiver(info("b", 2));
    for i in 0..10 {
        s.train(&job(0, 1), 0, 0, i < 7);
    }
    let (clients, aircraft) = s.state_json(0);
    assert_eq!(clients[0].outlier_tenths, 300);
    assert_eq!((clients[0].peer_count, clients[1].peer_count), (1, 1));
    assert_eq!(aircraft[0].sync_count, 10);
    assert_eq!(aircraft[0].sync_bad_tenths, 300); // 3000 / 10.01
    let (_, aircraft) = s.state_json(0);
    assert_eq!(aircraft[0].sync_count, 8);
    assert_eq!(aircraft[0].sync_bad_tenths, 300);
    assert_eq!(s.stats_sync_obs, 10);
}

#[test]
fn the_hearer_of_the_last_message_speaks_for_an_aircraft() {
    let tell = |icao: u32, at: i64| {
        let mut s: State<u32> = State::new(0, false, false);
        let a = s.add_receiver(info("a", 1));
        s.on_mlat(a, Frame::AllCall(Some(icao)), "5d", 0, at, 0);
        s.state_json(10 * SECOND).1
    };
    let mut all: Table<u32, Told> = Table::new();
    merge(&mut all, tell(1, 5 * SECOND));
    merge(&mut all, tell(1, 8 * SECOND));
    merge(&mut all, tell(1, 7 * SECOND));
    merge(&mut all, tell(2, 0));
    assert_eq!(all.len(), 2);
    assert_eq!(all.get(&1).unwrap().report.elapsed_tenths, 20);
    assert_eq!(all.get(&2).unwrap().report.elapsed_tenths, 100);
}

#[test]
fn stats_lines_round_the_double() {
    let mut s: State<u32> = State::new(0, false, false);
    let a = s.add_receiver(info("a", 1));
    s.add_receiver(info("b", 2));
    let st = s.receiver_stats(a).unwrap();
    assert_eq!(
        stats_line(&st),
        "{\"stats\":{\"peer_count\":0,\"bad_sync_timeout\":0,\"outlier_percent\":0.0}}\n"
    );
    // One of eight: 12.5 %.
    for i in 0..8 {
        s.train(&job(0, 1), 0, 0, i > 0);
    }
    let mut st = s.receiver_stats(a).unwrap();
    st.quarantined = true;
    assert_eq!(
        stats_line(&st),
        "{\"stats\":{\"peer_count\":1,\"bad_sync_timeout\":60,\"outlier_percent\":12.5}}\n"
    );
    let score = |good: u32, bad: u32| Score {
        good: Double::ratio(good as u128, 1),
        bad: Double::ratio(bad as u128, 1),
    };
    for (good, bad) in [(1999, 1), (1997, 3), (399, 1), (1995, 5), (1993, 7), (2, 1), (0, 9), (1, 2)] {
        let text = format!("{:.1}", 100.0 * bad as f64 / (good + bad) as f64);
        let n = score(good, bad).find_percent_tenths();
        assert_eq!(format!("{}.{}", n / 10, n % 10), text);
    }
    assert_eq!(score(1999, 1).find_percent_tenths(), 1);
    assert_eq!(score(1997, 3).find_percent_tenths(), 1);
    assert_eq!(score(399, 1).find_outlier_tenths(), 3);
    assert_eq!(score(0, 0).find_outlier_tenths(), 0);
    assert_eq!(score(0, 5).find_outlier_tenths(), 1000);
    assert_eq!(score(0, 5).find_percent_tenths(), 1000);
}

/// The number that a double stands for.
fn value(d: Double) -> f64 {
    // In two steps: the power alone may be below what a double holds.
    d.m as f64 * 2f64.powi(d.e + 200) * 2f64.powi(-200)
}

/// Numbers that look random.
fn next(seed: &mut u64) -> u64 {
    *seed = seed.wrapping_mul(6364136223846793005).wrapping_add(1442695040888963407);
    *seed >> 33
}

fn counted(mut s: Score, took: u32, refused: u32) -> Score {
    for i in 0..took + refused {
        s = s.count(i < took);
    }
    s
}

fn faded(mut s: Score, times: u32) -> Score {
    for _ in 0..times {
        s = s.fade();
    }
    s
}

#[test]
fn scores_fade_together_and_never_lose_their_share() {
    let s = counted(Score::new(), 7, 3);
    assert_eq!(s.find_percent_tenths(), 300);
    let once = s.fade();
    assert_eq!((value(once.good), value(once.bad)), (1.75, 0.75));
    // One more good one beside a quarter of ten: 0.75 of 3.5.
    let more = once.count(true);
    assert_eq!((value(more.good), value(more.bad)), (2.75, 0.75));
    assert_eq!(more.find_percent_tenths(), 214);
    let old = faded(s, 500);
    assert_eq!(old.find_percent_tenths(), 300);
    assert_eq!(old.find_outlier_tenths(), 300);
    assert_eq!(old.count(false).find_percent_tenths(), 1000, "the old ones are gone");
}

#[test]
fn scores_run_out_where_doubles_do() {
    let mut s = counted(Score::new(), 7, 3);
    let (mut good, mut bad) = (7.0f64, 3.0f64);
    for _ in 0..600 {
        assert_eq!((value(s.good), value(s.bad)), (good, bad));
        let percent = if good + bad > 0.0 {
            100.0 * bad / (good + bad)
        } else {
            0.0
        };
        let n = s.find_percent_tenths();
        assert_eq!(format!("{}.{}", n / 10, n % 10), format!("{percent:.1}"));
        s = s.fade();
        good *= 0.25;
        bad *= 0.25;
    }
    assert_eq!(s, Score::new());
    let mut t = counted_tally(3);
    let mut n = 3.0f64;
    for _ in 0..4000 {
        assert_eq!(value(t.n), n);
        t = t.fade_slowly();
        n *= 0.8;
    }
}

fn counted_tally(n: u32) -> Tally {
    let mut t = Tally::new();
    for _ in 0..n {
        t = t.count();
    }
    t
}

#[test]
fn what_faded_long_ago_counts_as_far_as_a_double_goes() {
    // What is left of the first one makes it more than 6.25 %.
    let s = counted(faded(counted(Score::new(), 0, 1), 20), 15, 1);
    assert_eq!(s.find_percent_tenths(), 63);
    // What is left of the first two is lost in the sum: 18.75 %.
    let t = counted(faded(counted(Score::new(), 2, 0), 25), 13, 3);
    assert_eq!(t.find_percent_tenths(), 188);
}

#[test]
fn scores_are_reckoned_as_doubles_are() {
    let mut seed = 1;
    for _ in 0..200 {
        let (mut s, mut good, mut bad) = (Score::new(), 0.0f64, 0.0f64);
        for _ in 0..60 {
            match next(&mut seed) % 4 {
                0 => {
                    s = s.fade();
                    good *= 0.25;
                    bad *= 0.25;
                }
                1 => {
                    s = s.count(false);
                    bad += 1.0;
                }
                _ => {
                    s = s.count(true);
                    good += 1.0;
                }
            }
            assert_eq!((value(s.good), value(s.bad)), (good, bad));
            let percent = if good + bad > 0.0 {
                100.0 * bad / (good + bad)
            } else {
                0.0
            };
            let n = s.find_percent_tenths();
            assert_eq!(format!("{}.{}", n / 10, n % 10), format!("{percent:.1}"));
            assert_eq!(s.find_outlier_tenths() as f64, (percent * 10.0).round());
        }
    }
}

#[test]
fn tallies_are_reckoned_as_doubles_are() {
    let mut seed = 7;
    for _ in 0..200 {
        let (mut g, mut b) = (Tally::new(), Tally::new());
        let (mut good, mut bad) = (0.0f64, 0.0f64);
        for _ in 0..60 {
            match next(&mut seed) % 5 {
                0 | 1 => {
                    g = g.fade_slowly();
                    b = b.fade_slowly();
                    good *= 0.8;
                    bad *= 0.8;
                }
                2 => {
                    b = b.count();
                    bad += 1.0;
                }
                _ => {
                    g = g.count();
                    good += 1.0;
                }
            }
            assert_eq!((value(g.n), value(b.n)), (good, bad));
            let count = (good + bad).round();
            assert_eq!(find_sync_count(g, b) as f64, count);
            let tenths = (1000.0 * bad / (count + 0.01)).round();
            assert_eq!(find_sync_bad(g, b) as f64, tenths);
        }
    }
}

#[test]
fn tallies_stop_at_their_ceiling() {
    let t = Tally { n: Double::ratio(1 << 53, 1) };
    assert_eq!(t.count(), t);
    assert_eq!(value(Tally::new().count().n), 1.0);
    let below = Tally { n: Double::ratio((1 << 53) - 1, 1) };
    assert_eq!(below.count(), t);
}

#[test]
fn sums_products_and_quotients_are_those_of_doubles() {
    let mut seed = 3;
    let mut draw = || {
        let n = next(&mut seed) % (1 << 20) * (next(&mut seed) % (1 << 20)) + 1;
        Double::ratio(n as u128, (next(&mut seed) % 1000 + 1) as u128)
    };
    for _ in 0..2000 {
        let (a, b) = (draw(), draw());
        assert_eq!(value(a.sum(&b)), value(a) + value(b));
        assert_eq!(value(a.product(&b)), value(a) * value(b));
        assert_eq!(value(a.quotient(&b)), value(a) / value(b));
        assert_eq!(a.find_whole() as f64, value(a).round());
    }
    let one = Double::ratio(1, 1);
    let tiny = Double { m: one.m, e: one.e - 70 };
    assert_eq!(one.sum(&tiny), one);
    assert_eq!(tiny.sum(&one), one);
    assert_eq!(Double::new().sum(&tiny), tiny);
    assert_eq!(tiny.find_whole(), 0);
    assert_eq!(Double::ratio(1 << 100, 1).find_whole(), u64::MAX);
    assert_eq!(Double::ratio(5, 2).find_whole(), 3);
    assert_eq!(Double::ratio(5, 2).find_parts(1), 2);
    assert_eq!(value(Double::ratio(1, 10)), 0.1);
    assert_eq!(value(Double::ratio((1 << 53) + 1, 1)), 9007199254740992.0);
}

#[test]
fn heartbeats_carry_the_output_clock() {
    assert_eq!(
        heartbeat_line(1_700_000_000_250_600_000),
        "{\"heartbeat\":{\"server_time\":1700000000.251}}\n"
    );
    assert_eq!(heartbeat_line(500_000), "{\"heartbeat\":{\"server_time\":0.001}}\n");
    assert_eq!(heartbeat_line(1_500_000), "{\"heartbeat\":{\"server_time\":0.002}}\n");
    assert_eq!(heartbeat_line(-1), "{\"heartbeat\":{\"server_time\":-0.000}}\n");
}

#[test]
fn residuals_within_the_line_bring_a_receiver_back() {
    let mut b = RxBias::new();
    for i in 0..60 {
        b = b.train(if i % 2 == 0 { 4_000_000_000 } else { -4_000_000_000 });
    }
    assert!(b.is_quarantined());
    // A scatter of one microsecond is below the line of one and a half.
    let mut steps = 0;
    while b.is_quarantined() {
        let before = b.mad_as;
        b = b.train(if steps % 2 == 0 { 1_000_000_000 } else { -1_000_000_000 });
        assert!(b.mad_as < before);
        steps += 1;
        assert!(steps < 1000);
    }
    assert!(steps > 10);
}

#[test]
fn biases_learn_fast_and_then_slowly() {
    let b = RxBias::new().train(1000);
    assert_eq!((b.bias_as, b.mad_as, b.n), (100_000, 90_000, 1));
    let b = b.nudge(-1000);
    assert_eq!((b.bias_as, b.mad_as, b.n), (0, 90_000, 2));
    // Small residuals that cancel leave nothing.
    let b = RxBias::new().nudge(5).nudge(-5);
    assert_eq!(b.bias_as, 0);
    assert_eq!(RxBias::new().nudge(5).in_fs(), 1, "0.5 fs");
    assert_eq!(RxBias::new().nudge(-5).in_fs(), -1);
    let old = RxBias {
        bias_as: 0,
        mad_as: 0,
        n: 50,
    };
    let b = old.train(1000);
    assert_eq!((b.bias_as, b.mad_as, b.n), (20_000, 19_600, 51));
    let out = RxBias {
        bias_as: 0,
        mad_as: 1_500_000_000_001,
        n: 30,
    };
    assert!(out.is_quarantined());
    assert!(!RxBias { n: 29, ..out }.is_quarantined());
    assert!(!RxBias {
        mad_as: 1_500_000_000_000,
        ..out
    }
    .is_quarantined());
    assert!(!out.train(0).is_quarantined(), "agreement brings it back");
}

#[test]
fn map_offsets_come_from_the_name() {
    assert_eq!(map_offsets("alice", false), Some((6183, 5034)));
    assert_eq!(map_offsets("alice", true), None);
    assert_eq!(map_offsets("", false), Some((6037, 1618)));
}
