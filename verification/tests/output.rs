use mlatd::calendar::{date_of, sbs_datetime};
use mlatd::cluster::{elect, members, relays};
use mlatd::frames::frame_bytes;
use mlatd::lines::Sighting;
use mlatd::output::{
    listen_address, shard_count, status_due, to_client, to_consumer, Batch, Feed, Meter, Published,
    Relay, TwinFilter, BATCH_LIMIT, TWINS_KEPT,
};
use mlatd::state::{Entry, RxRef};
use mlatd::text::{join, upper, write_icao, write_int, write_stamp, write_tenths};

const TENTH_FS: i128 = 100_000_000_000_000;
const MS_FS: i128 = 1_000_000_000_000;

#[test]
fn boundary_twins_are_dropped() {
    let mut f = TwinFilter::new();
    assert!(f.pass(None, 0, 1, 5 * TENTH_FS));
    assert!(!f.pass(Some(1), 1, 1, 6 * TENTH_FS - 1), "the same tenth");
    assert!(f.pass(Some(1), 1, 1, 6 * TENTH_FS));
    assert!(f.pass(Some(1), 1, 2, 6 * TENTH_FS), "another aircraft");
    assert!(!f.pass(Some(0), 1, 3, 6 * TENTH_FS), "another shard's place");
    assert!(f.pass(Some(0), 0, 3, 6 * TENTH_FS), "its own place");
    assert!(f.pass(None, 0, 9, -TENTH_FS / 2));
    assert!(!f.pass(None, 0, 9, -1), "the same tenth");
    assert!(f.pass(None, 0, 9, TENTH_FS / 2), "another tenth");
}

#[test]
fn the_filter_forgets_the_oldest() {
    let mut f = TwinFilter::new();
    for i in 0..TWINS_KEPT as u32 {
        assert!(f.pass(None, 0, i, 0));
    }
    assert!(!f.pass(None, 0, 0, 0));
    assert!(f.pass(None, 0, u32::MAX, 0));
    assert!(f.pass(None, 0, 0, 0), "the oldest has left");
    assert!(!f.pass(None, 0, 2, 0));
}

#[test]
fn a_batch_goes_out_at_its_limit_or_on_a_tick() {
    let mut b = Batch::new();
    assert!(b.flush().is_none());
    assert!(b.push(b"ab\n").is_none());
    assert!(b.push(b"cd\n").is_none());
    assert_eq!(b.flush(), Some(b"ab\ncd\n".to_vec()));
    assert!(b.flush().is_none());
    let most = vec![b'x'; BATCH_LIMIT - 1];
    assert!(b.push(&most).is_none());
    let out = b.push(b"y").unwrap();
    assert_eq!((out.len(), out[BATCH_LIMIT - 1]), (32_768, b'y'));
    assert!(b.flush().is_none());
}

fn fix() -> Published {
    Published {
        sbs_line: "MSG\r\n".into(),
        result_line: "{}\n".into(),
        recipients: vec![4, 7],
    }
}

#[test]
fn readers_get_their_part_of_the_stream() {
    let p = fix();
    assert!(matches!(to_consumer(&Feed::Fix(&p)), Relay::Write(l) if l == "MSG\r\n"));
    assert!(matches!(to_consumer(&Feed::Quiet), Relay::Write(l) if l == "\n"));
    assert!(matches!(to_consumer(&Feed::Lagged), Relay::Skip));
    assert!(matches!(to_consumer(&Feed::Closed), Relay::Stop));
    assert!(matches!(to_client(&Feed::Fix(&p), 7), Relay::Write(l) if l == "{}\n"));
    assert!(matches!(to_client(&Feed::Fix(&p), 5), Relay::Skip));
    assert!(matches!(to_client(&Feed::Lagged, 7), Relay::Skip));
    assert!(matches!(to_client(&Feed::Closed, 7), Relay::Stop));
}

#[test]
fn a_bare_port_listens_everywhere() {
    assert_eq!(listen_address(None, "127.0.0.1:40160"), "127.0.0.1:40160");
    assert_eq!(listen_address(Some("31090"), "x"), "0.0.0.0:31090");
    assert_eq!(listen_address(Some("[::1]:31090"), "x"), "[::1]:31090");
}

#[test]
fn shards_leave_two_cores() {
    assert_eq!(shard_count(5, Some(64)), 5);
    assert_eq!(shard_count(0, Some(8)), 6);
    assert_eq!(shard_count(0, Some(3)), 1);
    assert_eq!(shard_count(0, Some(1)), 1);
    assert_eq!(shard_count(0, None), 1);
}

#[test]
fn status_lines_follow_their_interval() {
    assert!(!status_due(-1, u64::MAX));
    assert!(status_due(0, 0));
    assert!(!status_due(15, 10_000_000_000));
    assert!(!status_due(15, 14_249_999_999));
    assert!(status_due(15, 14_250_000_000));
}

#[test]
fn a_meter_tells_the_rate_of_each_shard() {
    let mut m = Meter::new(2);
    assert_eq!(m.rate(0, 10), 10);
    assert_eq!(m.rate(1, 3), 3);
    assert_eq!(m.rate(0, 25), 15);
    assert_eq!(m.rate(0, 5), 0, "a count that went back");
    assert_eq!(m.rate(0, 6), 1);
}

#[test]
fn dates_and_times_are_utc() {
    assert_eq!(
        sbs_datetime(7 * MS_FS),
        ("1970/01/01".to_string(), "00:00:00.007".to_string())
    );
    assert_eq!(
        sbs_datetime(1_709_210_096_999 * MS_FS + MS_FS / 2),
        ("2024/02/29".to_string(), "12:34:56.999".to_string())
    );
    assert_eq!(sbs_datetime(4_102_444_799_000 * MS_FS).0, "2099/12/31");
    assert_eq!(sbs_datetime(951_868_800_000 * MS_FS).0, "2000/03/01");
    let d = date_of(59);
    assert_eq!((d.year, d.month, d.day), (1970, 3, 1));
}

#[test]
fn days_before_1970_have_dates_too() {
    assert_eq!(
        sbs_datetime(-1000 * MS_FS),
        ("1969/12/31".to_string(), "23:59:59.000".to_string())
    );
    assert_eq!(
        sbs_datetime(-86_399_995 * MS_FS),
        ("1969/12/31".to_string(), "00:00:00.005".to_string())
    );
    assert_eq!(sbs_datetime(-86_401_000 * MS_FS).0, "1969/12/30");
    // The last day of February 1600, a leap year.
    let d = date_of(-135_081);
    assert_eq!((d.year, d.month, d.day), (1600, 2, 29));
    let d = date_of(-719_528);
    assert_eq!((d.year, d.month, d.day), (0, 1, 1));
    let at = |stamp_fs: i128| {
        let s = Sighting {
            icao: 1,
            stamp_fs,
            alt_ft: 0,
            users: Vec::new(),
        };
        s.sbs_line("0", "0")
    };
    assert!(at(-1_000_000_000_000_000).contains(",1969/12/31,23:59:59.000,"));
    assert!(at(-1).contains(",1969/12/31,23:59:59.999,"));
    assert!(at(0).contains(",1970/01/01,00:00:00.000,"));
}

#[test]
fn moments_rise_and_read_back() {
    let text = |ms: i128| {
        let (d, t) = sbs_datetime(ms * MS_FS);
        assert_eq!((d.len(), t.len()), (10, 12));
        d + &t
    };
    let list = [
        0,
        1,
        999,
        1000,
        86_399_999,
        86_400_000,
        1_709_164_800_000,
        1_709_251_199_999,
        253_402_300_799_999,
    ];
    for pair in list.windows(2) {
        assert!(text(pair[0]) < text(pair[1]));
    }
    assert_eq!(text(253_402_300_799_999), "9999/12/3123:59:59.999");
}

#[test]
fn numbers_are_written_out() {
    assert_eq!(write_icao(0xabc), "000abc");
    assert_eq!(upper("3c6444"), "3C6444");
    assert_eq!(write_int(i64::MIN), "-9223372036854775808");
    assert_eq!(write_tenths(1000), "100.0");
    assert_eq!(write_stamp(i128::MAX), "170141183460469244952576.000");
    assert_eq!(write_stamp(-1_500_000_000_000), "-0.002");
    assert_eq!(write_stamp(2_500_000_000_000), "0.003");
    assert_eq!(write_stamp(62_500_000_000_000), "0.062");
    for s in [0.0005, 1_700_000_000.2505, 1_700_000_000.2515, 0.1875, 12_345.678_5] {
        let s: f64 = s;
        let whole = s.trunc() as i128 * 1_000_000_000_000_000;
        let fs = whole + (s.fract() * 1e15).round() as i128;
        assert_eq!(write_stamp(fs), format!("{s:.3}"));
    }
    assert_eq!(join(&vec!["a".into(), "b".into(), "c".into()], ", "), "a, b, c");
    assert_eq!(join(&Vec::new(), ","), "");
}

#[test]
fn hex_frames_become_bytes() {
    assert_eq!(frame_bytes("8dFf00"), Some(vec![0x8d, 0xff, 0]));
    assert_eq!(frame_bytes(""), Some(Vec::new()));
    assert_eq!(frame_bytes("8d3"), None);
    assert_eq!(frame_bytes("8x"), None);
    assert_eq!(frame_bytes("é"), None);
}

#[test]
fn rows_count_their_receivers() {
    let s = Sighting {
        icao: 0xa1b2c3,
        stamp_fs: -400_000_000_000,
        alt_ft: -200,
        users: vec!["u\"1".into(), "u2".into(), "u3".into()],
    };
    assert_eq!(
        s.csv_row("1.00000", "-2.00000", "3.5"),
        "-0.000,a1b2c3,,,1.00000,-2.00000,-200,3.5,3,3,\"u\"1,u2,u3\",0,\n"
    );
    assert_eq!(s.truth_row("4.0", "3.5"), "-0.000,a1b2c3,4.0,3.5,3\n");
    assert!(s
        .sbs_line("1", "2")
        .starts_with("MSG,3,1,1,A1B2C3,1,1969/12/31,23:59:59.999,"));
}

#[test]
fn members_are_listed_once_and_one_is_elected() {
    let e = |idx, gen| Entry {
        rx: RxRef { idx, gen },
        t_fs: 0,
        at: 0,
    };
    let heard = vec![e(5, 0), e(2, 1), e(5, 0), e(9, 0), e(2, 1)];
    let list: Vec<usize> = members(&heard).iter().map(|r| r.idx).collect();
    assert_eq!(list, [5, 2, 9]);
    let twice = members(&vec![e(5, 0), e(5, 1)]);
    assert_eq!(twice.len(), 2, "two connections in one slot");
    assert_eq!(elect(&list, &vec![(5, 2), (9, 5)]), 2);
    assert_eq!(elect(&list, &vec![(5, 2), (9, 5), (2, 5)]), 5);
    assert_eq!(relays(&list, 5, 9), [2]);
}
