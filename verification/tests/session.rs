use mlatd::geo::{Ecef, Real};
use mlatd::handshake::{accept, classify, handshake, ticks_per_second, Compression, Hello, Read, Refusal};
use mlatd::json::{read_json, Json};
use mlatd::message::{process_line, process_message, Forward, Outcome};
use mlatd::session::{split_lines, Event, Session, Step};
use mlatd::traffic::Traffic;

const SECOND: i64 = 1_000_000_000;

fn line(text: &str) -> Vec<u8> {
    let mut b = text.as_bytes().to_vec();
    b.push(b'\n');
    b
}

fn hello(text: &str) -> Result<Hello, Refusal> {
    handshake(&line(text), true)
}

const PLAIN: &str = "{\"version\":3,\"compress\":[\"none\"],\"return_results\":true,\"user\":\"t\",\"lat\":1.0,\"lon\":103.0,\"alt\":10.0,\"clock_type\":\"dump1090\"}";

#[test]
fn a_plain_handshake_is_accepted() {
    let h = hello(PLAIN).unwrap_or_else(|e| panic!("{e:?}"));
    assert_eq!(h.user, "t");
    assert_eq!(h.compress, Compression::Plain);
    assert_eq!(h.connection_info, "t v3 dump1090 unknown tcp none");
    assert_eq!(f64::from_bits(h.geo.lon_deg.bits), 103.0);
    assert_eq!((h.freq_hz, h.gps, h.jitter_fs), (12_000_000, false, 150_000_000));
    assert!(h.wants_results && !h.wants_stats);
    assert_eq!(h.uuid, None);
    assert_eq!(
        h.reply(),
        "{\"compress\":\"none\",\"reconnect_in\":300,\"selective_traffic\":true,\"heartbeat\":true,\"return_results\":true,\"rate_reports\":true,\"return_stats\":false,\"motd\":\"FlightPortrait network MLAT (mlatd)\"}\n"
    );
    assert!(!h.compress.packs_downlink() && !h.compress.packs_uplink());
}

#[test]
fn the_best_offered_compression_is_taken() {
    let offer = |list: &str| {
        hello(&format!(
            "{{\"compress\":{list},\"lat\":1,\"lon\":2,\"alt\":3,\"clock_type\":\"radarcape_gps\",\"uuid\":\"x\",\"privacy\":true,\"return_stats\":true,\"client_version\":\"0.2\"}}"
        ))
    };
    let h = offer("[\"none\",\"zlib\",\"zlib2\"]").unwrap_or_else(|e| panic!("{e:?}"));
    assert_eq!(h.compress.name(), "zlib2");
    assert!(h.compress.packs_downlink() && h.compress.packs_uplink());
    assert_eq!(h.connection_info, "anon v0 radarcape_gps 0.2 tcp zlib2");
    assert_eq!((h.freq_hz, h.gps, h.jitter_fs), (1_000_000_000, true, 30_000_000));
    assert_eq!(h.uuid.as_deref(), Some("x"));
    assert!(h.privacy && h.wants_stats && !h.wants_results);
    let h = offer("[\"none\",\"zlib\"]").unwrap_or_else(|e| panic!("{e:?}"));
    assert_eq!(h.compress, Compression::Zlib);
    assert!(!h.compress.packs_downlink() && h.compress.packs_uplink());
    assert!(matches!(offer("[\"lzma\"]"), Err(Refusal::NoCompression)));
    assert!(matches!(offer("\"none\""), Err(Refusal::NoCompression)));
}

#[test]
fn refusals_say_why() {
    assert!(matches!(handshake(b"", true), Err(Refusal::Closed)));
    assert!(matches!(handshake(b"{}", true), Err(Refusal::TooLong)));
    assert!(matches!(hello("hello"), Err(Refusal::NotJson)));
    assert!(matches!(hello("{}"), Err(Refusal::NoCompression)));
    let lost = hello("{\"compress\":[\"none\"],\"lat\":1.0,\"lon\":\"2\",\"alt\":3}");
    assert!(matches!(lost, Err(Refusal::NoPosition)));
    assert_eq!(
        Refusal::NoCompression.reply(),
        Some("{\"deny\":[\"no supported compression offered\"],\"reconnect_in\":300}\n")
    );
    assert_eq!(
        Refusal::NoPosition.reply(),
        Some("{\"deny\":[\"missing position\"],\"reconnect_in\":300}\n")
    );
    assert_eq!(Refusal::Closed.reply(), None);
    assert_eq!(Refusal::Closed.reason(), "closed before handshake");
    assert_eq!(Refusal::TooLong.reason(), "handshake line over 64 KiB");
    assert_eq!(Refusal::NotJson.reason(), "handshake not JSON");
    assert_eq!(
        Refusal::NoCompression.reason(),
        "client offered none of none/zlib/zlib2"
    );
    assert_eq!(Refusal::NoPosition.reason(), "handshake missing position");
}

#[test]
fn a_server_without_results_promises_none() {
    let h = handshake(&line(PLAIN), false).unwrap_or_else(|e| panic!("{e:?}"));
    assert!(!h.wants_results);
    let Some(doc) = read_json(PLAIN.as_bytes()) else {
        panic!("a document");
    };
    assert!(accept(&doc, true).is_ok_and(|h| h.wants_results));
}

#[test]
fn clock_types_have_their_frequency() {
    assert_eq!(ticks_per_second("radarcape"), 1_000_000_000);
    assert_eq!(ticks_per_second("radarcape_gps"), 1_000_000_000);
    assert_eq!(ticks_per_second("sbs"), 20_000_000);
    assert_eq!(ticks_per_second("radarcape_12mhz"), 12_000_000);
}

#[test]
fn a_hello_becomes_a_receiver() {
    let h = hello(PLAIN).unwrap_or_else(|e| panic!("{e:?}"));
    let zero = Real { bits: 0 };
    let ecef = Ecef {
        x: zero,
        y: zero,
        z: zero,
    };
    let info = h.into_receiver(9, "10.0.0.1".into(), 4000, ecef);
    assert_eq!((info.uid, info.source_port), (9, 4000));
    assert_eq!(info.user, "t");
    assert_eq!(info.source_ip, "10.0.0.1");
    assert_eq!(info.connection_info, "t v3 dump1090 unknown tcp none");
}

fn send(t: &mut Traffic, text: &str, now: i64) -> Outcome {
    process_line(t, text.as_bytes(), true, now)
}

#[test]
fn offered_aircraft_are_started_in_order() {
    let mut t = Traffic::new(0);
    let o = send(
        &mut t,
        "{\"seen\":[\"ABC123\",7,\"def456\"],\"rate_report\":{\"4CA1\":1,\"abc123\":2}}",
        0,
    );
    assert_eq!(
        o.start.as_deref(),
        Some("{\"start_sending\":[\"abc123\",\"def456\",\"4ca1\"]}\n")
    );
    assert!(o.stop.is_none() && matches!(o.forward, Forward::Nothing));
    let o = send(&mut t, "{\"seen\":[\"abc123\"],\"lost\":[\"DEF456\"]}", 0);
    assert!(o.start.is_none());
    let o = send(&mut t, "{\"seen\":[\"def456\"]}", 0);
    assert_eq!(o.start.as_deref(), Some("{\"start_sending\":[\"def456\"]}\n"));
    let o = send(&mut t, "{\"seen\":[\"\\u00c4\\\"\"]}", 0);
    assert_eq!(o.start.as_deref(), Some("{\"start_sending\":[\"\u{e4}\\\"\"]}\n"));
    let o = process_line(&mut t, b"{\"seen\":[\"fffff0\"]}", false, 0);
    assert!(o.start.is_none(), "nobody to ask");
}

#[test]
fn sync_pairs_are_forwarded_up_to_the_cap() {
    let pair = |icao: &str| {
        format!(
            "{{\"sync\":{{\"et\":1.5,\"ot\":2,\"em\":\"8d{icao}580f0e0c1e9f2b6a5b1c\",\"om\":\"x\"}}}}"
        )
    };
    let mut t = Traffic::new(1);
    let o = send(&mut t, &pair("3c6444"), 0);
    let Forward::Sync { et, ot, em, om } = o.forward else {
        panic!("a sync pair");
    };
    assert_eq!((f64::from_bits(et.bits), f64::from_bits(ot.bits)), (1.5, 2.0));
    assert_eq!((em.as_str(), om.as_str()), ("8d3c6444580f0e0c1e9f2b6a5b1c", "x"));
    let o = send(&mut t, &pair("3C6445"), SECOND);
    assert!(matches!(o.forward, Forward::Nothing));
    assert_eq!(o.stop.as_deref(), Some("{\"stop_sending\":[\"3c6445\"]}\n"));
    let o = send(&mut t, "{\"sync\":{\"et\":1,\"ot\":2,\"em\":\"8d\"}}", 0);
    assert!(matches!(o.forward, Forward::Nothing), "a half is missing");
}

#[test]
fn other_messages_are_told_apart() {
    let mut t = Traffic::new(0);
    let o = send(&mut t, "{\"mlat\":{\"t\":12,\"m\":\"5d\"}}", 0);
    assert!(matches!(&o.forward, Forward::Mlat { t, m } if f64::from_bits(t.bits) == 12.0 && m == "5d"));
    let o = send(&mut t, "{\"mlat\":{\"t\":\"12\",\"m\":\"5d\"}}", 0);
    assert!(matches!(o.forward, Forward::Nothing));
    let o = send(&mut t, "{\"clock_reset\":{}}", 0);
    assert!(matches!(o.forward, Forward::ClockReset));
    let o = send(&mut t, "{\"clock_jump\":null}", 0);
    assert!(matches!(o.forward, Forward::ClockReset));
    let o = send(&mut t, "{\"heartbeat\":{}}", 0);
    assert!(matches!(o.forward, Forward::Nothing));
    let o = send(&mut t, "{\"sync\":1,\"clock_reset\":{}}", 0);
    assert!(matches!(o.forward, Forward::Nothing), "sync goes first");
    let o = send(&mut t, "not json", 0);
    assert!(o.start.is_none() && matches!(o.forward, Forward::Nothing));
}

#[test]
fn a_message_given_as_a_document_is_taken_in() {
    let mut t = Traffic::new(0);
    let msg = Json::Object(vec![(
        "seen".into(),
        Json::List(vec![Json::Text("AB".into()), Json::Null, Json::Bool(true)]),
    )]);
    let o = process_message(&mut t, &msg, true, 0);
    assert_eq!(o.start.as_deref(), Some("{\"start_sending\":[\"ab\"]}\n"));
}

#[test]
fn chunks_part_into_lines() {
    let parts = |b: &[u8]| split_lines(b);
    assert_eq!(parts(b"a\n\nbc\nd"), vec![b"a".to_vec(), b"bc".to_vec(), b"d".to_vec()]);
    assert_eq!(parts(b"\n\n"), Vec::<Vec<u8>>::new());
    assert_eq!(parts(b""), Vec::<Vec<u8>>::new());
}

#[test]
fn reads_are_told_apart() {
    assert_eq!(classify(b""), Read::End);
    assert_eq!(classify(b"abc"), Read::Cut);
    assert_eq!(classify(b"abc\n"), Read::Line);
}

#[test]
fn a_session_answers_each_event() {
    let h = hello(PLAIN).unwrap_or_else(|e| panic!("{e:?}"));
    let mut s = Session::new(&h, 0, 7);
    let beat = s.step(Event::Heartbeat, 2 * SECOND, 8);
    assert!(matches!(&beat, Step::Send(l) if l == "{\"heartbeat\":{\"server_time\":2.000}}\n"));
    assert!(matches!(s.step(Event::Stats, 0, 8), Step::Nothing));
    s.wants_stats = true;
    assert!(matches!(s.step(Event::Stats, 0, 8), Step::AskStats));
    let step = s.step(Event::Line(line("{\"seen\":[\"a\"]}")), 0, 8);
    assert!(matches!(&step, Step::Work(w) if w.len() == 1 && w[0].start.is_some()));
    let chunk = b"{\"seen\":[\"a\"]}\n{\"seen\":[\"b\"]}\n\n".to_vec();
    let step = s.step(Event::Chunk(chunk), 0, 8);
    assert!(
        matches!(&step, Step::Work(w) if w.len() == 2 && w[0].start.is_none() && w[1].start.is_some())
    );
    assert!(matches!(s.step(Event::Line(Vec::new()), 0, 8), Step::Close));
    let cut = s.step(Event::Line(b"{".to_vec()), 0, 8);
    assert!(matches!(&cut, Step::Fail(why) if why == "line over 256 KiB"));
    let bad = s.step(Event::BadFrame, 0, 8);
    assert!(matches!(&bad, Step::Fail(why) if why == "zlib frame decode failed for t"));
    let idle = s.step(Event::Idle, 0, 300_000_000_008);
    assert!(matches!(&idle, Step::Fail(why) if why == "idle for 5 minutes"));
    assert!(matches!(s.step(Event::Gone, 0, 8), Step::Close));
}

#[test]
fn a_silent_connection_ends_after_five_minutes() {
    let h = hello(PLAIN).unwrap_or_else(|e| panic!("{e:?}"));
    let mut s = Session::new(&h, 0, 0);
    let second: u64 = 1_000_000_000;
    assert_eq!(s.patience(0), 300 * second);
    // Heartbeats go out all the while and do not keep it alive.
    for i in 1..10 {
        assert!(matches!(s.step(Event::Heartbeat, 0, i * 30 * second), Step::Send(_)));
    }
    assert_eq!(s.patience(299 * second), second);
    assert!(matches!(s.step(Event::Idle, 0, 300 * second - 1), Step::Nothing));
    assert_eq!(s.patience(300 * second), 0);
    for ev in [Event::Heartbeat, Event::Stats, Event::Idle] {
        let step = s.step(ev, 0, 300 * second);
        assert!(matches!(&step, Step::Fail(why) if why == "idle for 5 minutes"));
    }
    // Anything that the client sends starts the five minutes anew.
    let mut s = Session::new(&h, 0, 0);
    s.step(Event::Line(line("{\"heartbeat\":{}}")), 0, 299 * second);
    assert!(matches!(s.step(Event::Heartbeat, 0, 330 * second), Step::Send(_)));
    assert_eq!(s.patience(330 * second), 269 * second);
}
