use mlatd::clock::SECOND_NS;
use mlatd::traffic::{adsb_icao, Traffic};

fn at(seconds: i64) -> i64 {
    seconds * SECOND_NS
}

#[test]
fn caps_sync_aircraft_and_lets_them_rotate() {
    let mut t = Traffic::new(2);
    for a in ["a1", "a2", "a3"] {
        assert!(t.offered(a, at(0)));
    }
    assert!(t.on_sync("a1", at(1)));
    assert!(t.on_sync("a2", at(1)));
    assert!(!t.on_sync("a3", at(1)), "third ADS-B aircraft is stopped");
    assert!(!t.offered("a3", at(2)), "not re-requested while full");
    // a1 goes quiet: room again, but a3 is still in its suppress window.
    assert!(!t.offered("a3", at(40)));
    assert!(t.offered("a3", at(61)), "re-requested once there is room");
    assert!(t.on_sync("a3", at(62)));
}

#[test]
fn mode_s_only_aircraft_are_never_capped() {
    let mut t = Traffic::new(1);
    assert!(t.offered("m1", at(0)));
    assert!(t.offered("m2", at(0)));
    assert!(t.on_sync("a1", at(0)));
    assert!(!t.on_sync("a2", at(0)));
    assert!(
        t.offered("m3", at(0)),
        "no sync ever seen: not an ADS-B cap case"
    );
}

#[test]
fn unlimited_when_cap_is_zero() {
    let mut t = Traffic::new(0);
    for i in 0..100 {
        assert!(t.on_sync(&format!("{i:06x}"), at(0)));
    }
}

#[test]
fn adsb_icao_from_hex() {
    assert_eq!(
        adsb_icao("8d3c6444580f0e0c1e9f2b6a5b1c").as_deref(),
        Some("3c6444")
    );
    assert_eq!(
        adsb_icao("8D3C6444580F0E0C1E9F2B6A5B1C").as_deref(),
        Some("3c6444")
    );
    assert_eq!(adsb_icao("5d3c6444aabbcc"), None);
    assert_eq!(adsb_icao("203c6444580f0e0c1e9f2b6a5b1c"), None);
}

#[test]
fn an_offered_aircraft_is_requested_once() {
    let mut t = Traffic::new(0);
    assert!(t.offered("a1", at(0)));
    assert!(!t.offered("a1", at(1)));
    t.lost("a1");
    assert!(t.offered("a1", at(2)));
}

#[test]
fn a_kept_aircraft_stays_kept_when_full() {
    let mut t = Traffic::new(1);
    assert!(t.on_sync("a1", at(0)));
    assert!(t.on_sync("a1", at(20)));
    assert!(!t.on_sync("a2", at(25)));
    assert!(t.on_sync("a1", at(26)));
}

#[test]
fn a_quiet_aircraft_makes_room_after_thirty_seconds() {
    let mut t = Traffic::new(1);
    assert!(t.on_sync("a1", at(0)));
    assert!(!t.on_sync("a2", at(30) - 1));
    assert!(t.on_sync("a2", at(30)));
}

#[test]
fn an_address_needs_a_whole_hex_frame() {
    assert_eq!(adsb_icao("8dzzzzzz580f0e0c1e9f2b6a5b1c"), None);
    assert_eq!(adsb_icao("8d3c6444580f0e0c1e9f2b6a5b1z"), None);
    assert_eq!(adsb_icao("8d\u{e9}\u{e9}\u{e9}\u{e9}\u{e9}\u{e9}\u{e9}\u{e9}\u{e9}\u{e9}\u{e9}\u{e9}\u{e9}"), None);
    assert_eq!(adsb_icao(""), None);
    assert_eq!(adsb_icao("8d3c6444580f0e0c1e9f2b6a5b1"), None);
    assert_eq!(adsb_icao("8d3c6444580f0e0c1e9f2b6a5b1c00"), None);
    assert_eq!(adsb_icao("983c6444580f0e0c1e9f2b6a5b1c"), None, "downlink format 19");
    assert_eq!(
        adsb_icao("903C6444580f0e0c1e9f2b6a5b1c").as_deref(),
        Some("3c6444")
    );
}
