//! What an export owes to what is remembered.

use vstd::prelude::*;
#[allow(unused_imports)]
use crate::bias::{lemma_rounded_near, rounded};
#[allow(unused_imports)]
use crate::geo::Geodetic;
#[allow(unused_imports)]
use crate::listing::{rising, Numbered};
#[allow(unused_imports)]
use crate::state::report::{
    slots_exported, taken, AircraftReport, ClientReport, FixReport, Motion, SyncReport,
};
#[allow(unused_imports)]
use crate::tally::sync_bad_tenths;
#[allow(unused_imports)]
use crate::order::{law_addresses_read_back, spelled_in_hex};
#[allow(unused_imports)]
use crate::state::slots::RxStats;
#[allow(unused_imports)]
use crate::text::{ascii_upper, icao_text};
#[allow(unused_imports)]
use crate::state::{AcView, Heard, RxRef, SlotView, StateView};

verus! {

/// The motion of an aircraft depends on its last two fixes alone, not on when
/// it is told: at any two moments it is the same.
pub proof fn law_motion_does_not_age<M>(
    s: StateView<M>,
    t: StateView<M>,
    icao: u32,
    a: AcView,
    b: AcView,
    now: i64,
    later: i64,
    r: AircraftReport,
    q: AircraftReport,
)
    requires
        a.last_fix == b.last_fix,
        a.prev_fix == b.prev_fix,
        s.tells(icao, a, now, r),
        t.tells(icao, b, later, q),
    ensures
        r.fix is Some <==> q.fix is Some,
        r.fix is Some ==> {
            &&& r.fix->0.pos == q.fix->0.pos
            &&& r.fix->0.motion is Some <==> q.fix->0.motion is Some
            &&& r.fix->0.motion is Some ==> r.fix->0.motion->0.dt_ns == q.fix->0.motion->0.dt_ns
                && r.fix->0.motion->0.from == q.fix->0.motion->0.from
        },
{
}

/// What is told of an aircraft's fix: its place, its age to half a tenth of a
/// second, the altitude that is known, and the motion from the fix before where
/// that is less than two minutes older: the time between the two and the place
/// of the first.
pub proof fn law_what_is_told_of_a_fix<M>(
    s: StateView<M>,
    icao: u32,
    a: AcView,
    now: i64,
    r: AircraftReport,
)
    requires
        s.tells(icao, a, now, r),
    ensures
        ({
            let f = r.fix->0;
            let (last, prev) = (a.last_fix->0, a.prev_fix->0);
            &&& r.fix is Some <==> a.last_fix is Some
            &&& r.fix is Some ==> {
                &&& f.pos == last.pos
                &&& -50_000_000 <= 100_000_000 * f.age_tenths - (now - last.at) <= 50_000_000
                &&& f.alt_ft is Some <==> s.alts_ft.contains_key(icao)
                &&& f.alt_ft is Some ==> f.alt_ft->0 == s.alts_ft[icao]
                &&& f.motion is Some <==> a.prev_fix is Some && prev.at < last.at && last.at
                    - prev.at < 120_000_000_000
                &&& f.motion is Some ==> prev.at + f.motion->0.dt_ns == last.at
                    && f.motion->0.from == prev.pos
            }
        }),
{
    if let Some(f) = a.last_fix {
        lemma_rounded_near(now - f.at, 100_000_000);
    }
}

/// The holder of slot `i` reported the aircraft less than a minute before `now`,
/// and still holds it.
pub open spec fn still_hears<M>(s: StateView<M>, m: Map<usize, Heard>, i: usize, now: i64) -> bool {
    &&& m.contains_key(i)
    &&& now - m[i].at < 60_000_000_000
    &&& i < s.slots.len()
    &&& s.slots[i as int].alive
    &&& s.slots[i as int].gen == m[i].gen
}

/// Those of `still_hears`.
pub open spec fn hearers<M>(s: StateView<M>, m: Map<usize, Heard>, now: i64) -> Set<usize> {
    Set::new(|i: usize| still_hears(s, m, i, now))
}

/// What is told of an aircraft, under its address in upper case: how long ago it was heard, to half a tenth of a
/// second; how many still report its frames and its sync pairs, and all of them
/// in order of their slots; its messages and its fixes; and, ten minutes after
/// it was last heard, the serials of those who report it.
pub proof fn law_what_is_told_of_an_aircraft<M>(
    s: StateView<M>,
    icao: u32,
    a: AcView,
    now: i64,
    r: AircraftReport,
    i: usize,
    k: int,
    j: int,
)
    requires
        s.tells(icao, a, now, r),
        icao < 0x100_0000,
    ensures
        r.key@.len() == 6,
        spelled_in_hex(r.key@) == icao,
        forall|x: int| 0 <= x < 6 ==> !('a' <= #[trigger] r.key@[x] <= 'z'),
        ({
            let m = hearers(s, a.rx_mlat, now);
            let y = hearers(s, a.rx_sync, now);
            &&& r.icao == icao
            &&& -50_000_000 <= 100_000_000 * r.elapsed_tenths - (now - a.seen) <= 50_000_000
            &&& r.mlat_interest == m.len()
            &&& r.sync_interest == y.len()
            &&& r.adsb_seen == y.len()
            &&& r.interesting <==> m.len() > 0
            &&& r.tracking@.contains(i) <==> still_hears(s, a.rx_mlat, i, now) || still_hears(
                s,
                a.rx_sync,
                i,
                now,
            )
            &&& 0 <= k < j < r.tracking@.len() ==> r.tracking@[k] < r.tracking@[j]
            &&& r.mlat_messages == a.msgs
            &&& r.mlat_results == a.results
            &&& r.sync_count == a.good.n.plus(a.bad.n).whole()
            &&& r.sync_bad_tenths == sync_bad_tenths(a.good, a.bad)
            &&& r.allow_mlat == 1
            &&& r.kalman_count == 0
            &&& r.tracking_receivers is Some <==> r.elapsed_tenths > 6000
            &&& r.tracking_receivers matches Some(list) ==> list@.len() == r.tracking@.len() && (0
                <= k < list@.len() ==> list@[k] == s.receivers[r.tracking@[k] as int].uid)
        }),
{
    lemma_rounded_near(now - a.seen, 100_000_000);
    law_addresses_read_back(icao);
    assert forall|x: int| 0 <= x < 6 implies !('a' <= #[trigger] r.key@[x] <= 'z') by {
        assert(r.key@[x] == ascii_upper(icao_text(icao))[x]);
        assert(!('A' <= icao_text(icao)[x] <= 'Z'));
    }
    assert(hearers(s, a.rx_mlat, now) =~= s.hearing(a.rx_mlat, now).dom());
    assert(hearers(s, a.rx_sync, now) =~= s.hearing(a.rx_sync, now).dom());
    assert(s.hearing(a.rx_mlat, now).dom().union(s.hearing(a.rx_sync, now).dom()).contains(i)
        <==> still_hears(s, a.rx_mlat, i, now) || still_hears(s, a.rx_sync, i, now));
    if 0 <= k < j < r.tracking@.len() {
        assert(r.tracking@[k].num() < r.tracking@[j].num());
    }
    if let Some(list) = r.tracking_receivers {
        assert(list@ == s.serials(r.tracking@));
    }
}

/// A receiver's scatter puts it out: 30 residuals or more, and more than 1.5
/// microseconds.
pub open spec fn is_out(b: crate::bias::RxBias) -> bool {
    b.n >= 30 && b.mad_as > 1_500_000_000_000
}

/// What is told of a client: its messages over the 15 s of an export period, to
/// half of one per second; its peers and those of them that are out; and a
/// timeout of 60 where it is out itself.
pub proof fn law_what_is_told_of_a_client<M>(
    s: StateView<M>,
    rx: usize,
    now: i64,
    r: ClientReport,
    b: usize,
)
    requires
        s.contributes(rx, now, r),
    ensures
        r.rx == rx,
        r.user@ == s.receivers[rx as int].user@,
        -15 <= 2 * (15 * r.message_rate - s.slots[rx as int].msgs) <= 15,
        r.peer_count == Set::new(|b: usize| s.pairs.contains_key((rx, b))).len(),
        r.bad_sync_timeout == if is_out(s.slots[rx as int].bias) {
            60int
        } else {
            0
        },
        r.bad_peers@.contains(b) <==> s.pairs.contains_key((rx, b)) && is_out(
            s.slots[b as int].bias,
        ),
        r.bad_peers@.no_duplicates(),
        r.outlier_tenths == s.slots[rx as int].score.outlier_tenths(),
{
    lemma_rounded_near(s.slots[rx as int].msgs as int, 15);
    assert(s.peers(rx) =~= Set::new(|b: usize| s.pairs.contains_key((rx, b))));
    assert(s.bad_peers(rx).contains(b) <==> s.pairs.contains_key((rx, b)) && is_out(
        s.slots[b as int].bias,
    ));
}

/// What is told of a receiver and its peers: all of them, each once, and 4
/// tenths of a point where it is out.
pub proof fn law_what_is_told_of_peers<M>(s: StateView<M>, rx: usize, r: SyncReport, b: usize)
    requires
        s.syncs(rx, r),
    ensures
        r.rx == rx,
        r.user@ == s.receivers[rx as int].user@,
        r.peers@.contains(b) <==> s.pairs.contains_key((rx, b)),
        r.peers@.no_duplicates(),
        r.bad_syncs == if is_out(s.slots[rx as int].bias) {
            4int
        } else {
            0
        },
        r.offset is None <==> s.receivers[rx as int].privacy,
        r.offset matches Some((north, east)) ==> north < 10_000 && east < 10_000,
{
    assert(s.peers(rx).contains(b) <==> s.pairs.contains_key((rx, b)));
}

/// What a receiver is told of itself when it asks: how many peers it has, and
/// whether it is out. Asking fades its own score and changes nothing else.
pub proof fn law_what_a_receiver_is_told<M>(s: StateView<M>, r: RxRef, st: RxStats, i: int)
    requires
        s.live(r),
        s.stats_are(r.idx, st),
    ensures
        st.peers == Set::new(|b: usize| s.pairs.contains_key((r.idx, b))).len(),
        st.quarantined == is_out(s.slots[r.idx as int].bias),
        st.score == s.slots[r.idx as int].score,
        ({
            let t = s.asked(r);
            let (x, y) = (s.slots[r.idx as int], t.slots[r.idx as int]);
            &&& y == (SlotView { score: y.score, ..x })
            &&& y.score == x.score.quarter()
            &&& 0 <= i < s.slots.len() && i != r.idx ==> t.slots[i] == s.slots[i]
            &&& t.slots.len() == s.slots.len()
            &&& t == (StateView { slots: t.slots, ..s })
        }),
{
    assert(s.peers(r.idx) =~= Set::new(|b: usize| s.pairs.contains_key((r.idx, b))));
}

/// What an export leaves behind. An aircraft that was heard less than an hour
/// ago stays, with four fifths of its counts and with those who still hear it;
/// any other is forgotten. A connected receiver's messages are counted anew, and
/// of its interests those of the last minute stay. Nothing else changes.
pub proof fn law_what_an_export_leaves<M>(
    s: StateView<M>,
    now: i64,
    icao: u32,
    i: int,
    rx: usize,
)
    ensures
        ({
            let t = s.exported(now);
            let (a, b) = (s.ac_log[icao], t.ac_log[icao]);
            let (x, y) = (s.slots[i], t.slots[i]);
            &&& t.ac_log.contains_key(icao) <==> s.ac_log.contains_key(icao) && now - a.seen
                < 3_600_000_000_000
            &&& t.ac_log.contains_key(icao) ==> {
                &&& b.good == a.good.four_fifths()
                &&& b.bad == a.bad.four_fifths()
                &&& b.rx_mlat.contains_key(rx) <==> still_hears(s, a.rx_mlat, rx, now)
                &&& b.rx_sync.contains_key(rx) <==> still_hears(s, a.rx_sync, rx, now)
                &&& b.rx_mlat.contains_key(rx) ==> b.rx_mlat[rx] == a.rx_mlat[rx]
                &&& b.rx_sync.contains_key(rx) ==> b.rx_sync[rx] == a.rx_sync[rx]
                &&& b == (AcView {
                    good: b.good,
                    bad: b.bad,
                    rx_mlat: b.rx_mlat,
                    rx_sync: b.rx_sync,
                    ..a
                })
            }
            &&& t.slots.len() == s.slots.len()
            &&& 0 <= i < s.slots.len() && !x.alive ==> y == x
            &&& 0 <= i < s.slots.len() && x.alive ==> {
                &&& y.msgs == 0
                &&& y.sync.contains_key(icao) <==> x.sync.contains_key(icao) && now - x.sync[icao]
                    < 60_000_000_000
                &&& y.mlat.contains_key(icao) <==> x.mlat.contains_key(icao) && now - x.mlat[icao]
                    < 60_000_000_000
                &&& y.sync.contains_key(icao) ==> y.sync[icao] == x.sync[icao]
                &&& y.mlat.contains_key(icao) ==> y.mlat[icao] == x.mlat[icao]
                &&& y == (SlotView { msgs: y.msgs, sync: y.sync, mlat: y.mlat, ..x })
            }
            &&& t == (StateView { slots: t.slots, ac_log: t.ac_log, ..s })
        }),
{
}

} // verus!
