//! What the shard tells monitoring: its receivers, their peers, its aircraft.

use vstd::prelude::*;
use crate::bias::round_off;
#[allow(unused_imports)]
use crate::bias::rounded;
use crate::clock::within;
#[allow(unused_imports)]
use crate::clock::recent;
use crate::geo::Geodetic;
use crate::listing::{keys_of, put_keys};
#[allow(unused_imports)]
use crate::listing::{is_listing, lemma_contains_push, lemma_listing, lemma_rising, rising};
use crate::mapping::map_offsets;
#[allow(unused_imports)]
use crate::mapping::offsets;
use crate::state::{AcLog, Fix, Heard, Slot, State};
#[allow(unused_imports)]
use crate::state::intake::lemma_reports_orderly;
#[allow(unused_imports)]
use crate::state::RxRef;
#[allow(unused_imports)]
use crate::state::{slot_views, AcView, SlotView, StateView};
use crate::rows::{Choice, Newer};
use crate::table::Never;
use crate::tally::{find_sync_bad, find_sync_count};
#[allow(unused_imports)]
use crate::tally::{lemma_stays_fair, sync_bad_tenths, sync_count};
#[allow(unused_imports)]
use crate::frames::ADDRESS_END;
use crate::text::{upper, write_icao};
#[allow(unused_imports)]
use crate::text::{ascii_upper, icao_text, texts};
#[allow(unused_imports)]
use crate::rows::{distinct_keys, has_key, kept, lemma_map_of, map_of, row_of, row_views};

verus! {

/// An aircraft that was not heard for this long is forgotten: an hour.
pub const AC_EXPIRE_NS: i64 = 3_600_000_000_000;

/// A receiver counts as hearing an aircraft for this long: a minute.
pub const INTEREST_NS: i64 = 60_000_000_000;

/// Two fixes this far apart at most give a motion: two minutes.
pub const MOTION_NS: i128 = 120_000_000_000;

/// Nanoseconds in a tenth of a second.
pub const TENTH_NS: i128 = 100_000_000;

/// Tenths of a second of silence after which an aircraft's receivers are
/// listed: ten minutes.
pub const QUIET_TENTHS: i64 = 6000;

/// A receiver and its peers.
pub struct SyncReport {
    pub rx: usize,
    /// Its name, which the report goes under.
    pub user: String,
    pub peers: Vec<usize>,
    /// Its score on a scale up to 6, in tenths: 4 where it is left out of
    /// solves, else 0.
    pub bad_syncs: u64,
    /// Where it appears on the map.
    pub offset: Option<(u64, u64)>,
}

/// A receiver and what it contributes to.
pub struct ClientReport {
    pub rx: usize,
    /// Its name, which the report goes under.
    pub user: String,
    /// Messages per second since the last export.
    pub message_rate: u64,
    pub peer_count: usize,
    pub bad_sync_timeout: u64,
    /// Share of its sync observations that were refused, in tenths of a percent.
    pub outlier_tenths: u64,
    /// Peers that are left out of solves.
    pub bad_peers: Vec<usize>,
    /// Aircraft that it reports sync pairs of, in order.
    pub sync_interest: Vec<String>,
    /// Aircraft that it reports frames of, in order.
    pub mlat_interest: Vec<String>,
}

/// How an aircraft got from the fix before to the last one.
pub struct Motion {
    pub from: Geodetic,
    pub dt_ns: i64,
}

/// The last fix of an aircraft.
pub struct FixReport {
    pub age_tenths: i64,
    pub pos: Geodetic,
    pub alt_ft: Option<i32>,
    pub motion: Option<Motion>,
}

/// An aircraft and who hears it.
pub struct AircraftReport {
    pub icao: u32,
    /// Its address in upper case, which the report goes under.
    pub key: String,
    pub elapsed_tenths: i64,
    /// Someone reports its frames.
    pub interesting: bool,
    /// Every aircraft may be multilaterated.
    pub allow_mlat: u64,
    /// The slots that report anything of it.
    pub tracking: Vec<usize>,
    pub sync_interest: usize,
    pub mlat_interest: usize,
    /// Receivers that report sync pairs of it.
    pub adsb_seen: usize,
    pub mlat_messages: u64,
    pub mlat_results: u64,
    /// No filter runs over published fixes.
    pub kalman_count: u64,
    pub sync_count: u64,
    /// Share of its sync observations that were refused, in tenths of a percent.
    pub sync_bad_tenths: u64,
    pub fix: Option<FixReport>,
    /// The serials of `tracking`, once the aircraft has been quiet for long.
    pub tracking_receivers: Option<Vec<u64>>,
}

/// Of the first `n` slots, those that are taken.
pub open spec fn taken(slots: Seq<SlotView>, n: nat) -> Seq<usize>
    decreases n,
{
    if n == 0 {
        Seq::empty()
    } else {
        let head = taken(slots, (n - 1) as nat);
        if slots[n - 1].alive {
            head.push((n - 1) as usize)
        } else {
            head
        }
    }
}

/// What is left of a memory after a minute.
pub open spec fn fresh<K>(m: Map<K, i64>, now: i64) -> Map<K, i64> {
    kept(m, |k: K, t: i64| recent(now as int, t as int, INTEREST_NS as int))
}

/// A taken slot after an export: old interests are gone and the messages are
/// counted anew.
pub open spec fn slot_exported(s: SlotView, now: i64) -> SlotView {
    SlotView { sync: fresh(s.sync, now), mlat: fresh(s.mlat, now), msgs: 0, ..s }
}

/// The slots once the first `n` have been exported.
pub open spec fn slots_exported(slots: Seq<SlotView>, now: i64, n: int) -> Seq<SlotView> {
    Seq::new(
        slots.len(),
        |i: int|
            if i < n && slots[i].alive {
                slot_exported(slots[i], now)
            } else {
                slots[i]
            },
    )
}

/// The addresses of `list` as text.
pub open spec fn icao_names(list: Seq<u32>) -> Seq<Seq<char>> {
    list.map_values(|c: u32| icao_text(c))
}

/// `list` holds what `set` holds in rising order, each item once.
pub open spec fn in_order(list: Seq<u32>, set: Set<u32>) -> bool {
    rising(list) && is_listing(list, set)
}

/// `names` are the addresses in `set` as text, in rising order.
pub open spec fn names_all(names: Seq<Seq<char>>, set: Set<u32>) -> bool {
    exists|list: Seq<u32>| #[trigger] in_order(list, set) && names == icao_names(list)
}

impl<M> StateView<M> {
    /// `r` tells of slot `rx` and its peers.
    pub open spec fn syncs(self, rx: usize, r: SyncReport) -> bool {
        let slot = self.slots[rx as int];
        let info = self.receivers[rx as int];
        &&& r.rx == rx
        &&& r.user@ == info.user@
        &&& is_listing(r.peers@, self.peers(rx))
        &&& r.bad_syncs == if slot.bias.quarantined() {
            4int
        } else {
            0
        }
        &&& r.offset == offsets(info.user@, info.privacy)
    }

    /// The peers of `rx` that are left out of solves.
    pub open spec fn bad_peers(self, rx: usize) -> Set<usize> {
        Set::new(
            |b: usize|
                self.pairs.contains_key((rx, b)) && self.slots[b as int].bias.quarantined(),
        )
    }

    /// `r` tells of slot `rx` and what it contributes to.
    pub open spec fn contributes(self, rx: usize, now: i64, r: ClientReport) -> bool {
        let slot = self.slots[rx as int];
        &&& r.rx == rx
        &&& r.user@ == self.receivers[rx as int].user@
        &&& r.message_rate == rounded(slot.msgs as int, 15)
        &&& r.peer_count == self.peers(rx).len()
        &&& r.bad_sync_timeout == if slot.bias.quarantined() {
            60int
        } else {
            0
        }
        &&& r.outlier_tenths == slot.score.outlier_tenths()
        &&& is_listing(r.bad_peers@, self.bad_peers(rx))
        &&& names_all(texts(r.sync_interest@), fresh(slot.sync, now).dom())
        &&& names_all(texts(r.mlat_interest@), fresh(slot.mlat, now).dom())
    }

    /// Of the connections that reported an aircraft, by slot, those that still
    /// do.
    pub open spec fn hearing(self, m: Map<usize, Heard>, now: i64) -> Map<usize, Heard> {
        kept(
            m,
            |i: usize, h: Heard|
                recent(now as int, h.at as int, INTEREST_NS as int) && self.live(
                    RxRef { idx: i, gen: h.gen },
                ),
        )
    }

    /// What is remembered of an aircraft after an export.
    pub open spec fn ac_exported(self, a: AcView, now: i64) -> AcView {
        AcView {
            good: a.good.four_fifths(),
            bad: a.bad.four_fifths(),
            rx_mlat: self.hearing(a.rx_mlat, now),
            rx_sync: self.hearing(a.rx_sync, now),
            ..a
        }
    }

    /// `r` tells of the last fix of `icao`.
    pub open spec fn fix_told(self, icao: u32, a: AcView, now: i64, r: Option<FixReport>) -> bool {
        match (a.last_fix, r) {
            (None, None) => true,
            (Some(f), Some(r)) => {
                &&& r.age_tenths == rounded(now - f.at, TENTH_NS as int)
                &&& r.pos == f.pos
                &&& r.alt_ft == if self.alts_ft.contains_key(icao) {
                    Some(self.alts_ft[icao])
                } else {
                    None
                }
                &&& match (a.prev_fix, r.motion) {
                    (Some(p), Some(m)) => 0 < f.at - p.at < MOTION_NS && m.from == p.pos && m.dt_ns
                        == f.at - p.at,
                    (Some(p), None) => !(0 < f.at - p.at < MOTION_NS),
                    (None, m) => m is None,
                }
            },
            _ => false,
        }
    }

    /// The serials of the receivers in some slots.
    pub open spec fn serials(self, slots: Seq<usize>) -> Seq<u64> {
        slots.map_values(|i: usize| self.receivers[i as int].uid)
    }

    /// `r` tells of the aircraft `icao` that `a` is remembered of.
    pub open spec fn tells(self, icao: u32, a: AcView, now: i64, r: AircraftReport) -> bool {
        let m = self.hearing(a.rx_mlat, now);
        let y = self.hearing(a.rx_sync, now);
        &&& r.icao == icao
        &&& r.key@ == ascii_upper(icao_text(icao))
        &&& r.allow_mlat == 1
        &&& r.kalman_count == 0
        &&& r.adsb_seen == y.len()
        &&& r.elapsed_tenths == rounded(now - a.seen, TENTH_NS as int)
        &&& r.interesting == (m.len() > 0)
        &&& rising(r.tracking@)
        &&& is_listing(r.tracking@, m.dom().union(y.dom()))
        &&& r.sync_interest == y.len()
        &&& r.mlat_interest == m.len()
        &&& r.mlat_messages == a.msgs
        &&& r.mlat_results == a.results
        &&& r.sync_count == sync_count(a.good, a.bad)
        &&& r.sync_bad_tenths == sync_bad_tenths(a.good, a.bad)
        &&& self.fix_told(icao, a, now, r.fix)
        &&& match r.tracking_receivers {
            Some(list) => r.elapsed_tenths > QUIET_TENTHS && list@ == self.serials(r.tracking@),
            None => r.elapsed_tenths <= QUIET_TENTHS,
        }
    }

    /// The aircraft that were heard within the hour.
    pub open spec fn remembered(self, now: i64) -> Map<u32, AcView> {
        kept(
            self.ac_log,
            |c: u32, a: AcView| recent(now as int, a.seen as int, AC_EXPIRE_NS as int),
        )
    }

    /// The state after an export.
    pub open spec fn exported(self, now: i64) -> StateView<M> {
        StateView {
            slots: slots_exported(self.slots, now, self.slots.len() as int),
            ac_log: Map::new(
                |c: u32| self.remembered(now).contains_key(c),
                |c: u32| self.ac_exported(self.remembered(now)[c], now),
            ),
            ..self
        }
    }
}

/// The aircraft that were heard within the hour.
struct Remembered {
    now: i64,
}

impl Choice<u32, AcLog> for Remembered {
    closed spec fn picks(&self, k: u32, w: AcView) -> bool {
        recent(self.now as int, w.seen as int, AC_EXPIRE_NS as int)
    }

    fn check(&self, k: &u32, w: &AcLog) -> (r: bool) {
        within(self.now, w.seen, AC_EXPIRE_NS)
    }
}

/// The connections that still report an aircraft.
struct Hearing<'a> {
    now: i64,
    slots: &'a Vec<Slot>,
}

impl<'a> Choice<usize, Heard> for Hearing<'a> {
    closed spec fn picks(&self, k: usize, w: Heard) -> bool {
        recent(self.now as int, w.at as int, INTEREST_NS as int) && k < self.slots@.len()
            && self.slots@[k as int].alive && self.slots@[k as int].gen == w.gen
    }

    fn check(&self, k: &usize, w: &Heard) -> (r: bool) {
        within(self.now, w.at, INTEREST_NS) && *k < self.slots.len() && self.slots[*k].alive
            && self.slots[*k].gen == w.gen
    }
}

/// Writes addresses as text.
fn write_names(list: &Vec<u32>) -> (r: Vec<String>)
    ensures
        texts(r@) == icao_names(list@),
{
    let mut out: Vec<String> = Vec::new();
    let mut i: usize = 0;
    while i < list.len()
        invariant
            i <= list@.len(),
            texts(out@) == icao_names(list@).take(i as int),
        decreases list@.len() - i,
    {
        let ghost before = texts(out@);
        let name = write_icao(list[i]);
        let ghost text = name@;
        out.push(name);
        i = i + 1;
        assert(texts(out@) =~= before.push(text));
        assert(texts(out@) =~= icao_names(list@).take(i as int));
    }
    assert(texts(out@) =~= icao_names(list@));
    out
}

/// Messages per second over an export period of 15 s.
fn per_second(msgs: u64) -> (r: u64)
    ensures
        r == rounded(msgs as int, 15),
{
    let r: u128 = (2 * msgs as u128 + 15) / 30;
    r as u64
}

fn tenths_since(now: i64, then: i64) -> (r: i64)
    ensures
        r == rounded(now - then, TENTH_NS as int),
{
    let d: i128 = now as i128 - then as i128;
    let r: i128 = round_off(d, TENTH_NS);
    proof {
        let n = if d >= 0 { d as int } else { -d };
        assert((2 * n + 100_000_000) / 200_000_000 <= 0x4000_0000_0000_0000);
    }
    r as i64
}

impl<M> State<M> {
    /// The score of slot `rx` on a scale up to 6, in tenths.
    fn bad_syncs(&self, rx: usize) -> (r: u64)
        requires
            rx < self@.slots.len(),
        ensures
            r == (if self@.slots[rx as int].bias.quarantined() {
                4int
            } else {
                0
            }),
    {
        assert(self@.slots[rx as int] == self.slots@[rx as int]@);
        if self.slots[rx].bias.is_quarantined() {
            4
        } else {
            0
        }
    }

    /// Every connected receiver with its peers, in slot order.
    pub fn sync_json(&self) -> (r: Vec<SyncReport>)
        requires
            self@.orderly(),
        ensures
            r@.len() == taken(self@.slots, self@.slots.len()).len(),
            forall|k: int|
                0 <= k < r@.len() ==> self@.syncs(
                    taken(self@.slots, self@.slots.len())[k],
                    #[trigger] r@[k],
                ),
    {
        let mut out: Vec<SyncReport> = Vec::new();
        let mut i: usize = 0;
        while i < self.slots.len()
            invariant
                i <= self.slots@.len(),
                self@.orderly(),
                self@.slots == slot_views(self.slots@),
                self@.receivers == self.receivers@,
                out@.len() == taken(self@.slots, i as nat).len(),
                forall|k: int|
                    0 <= k < out@.len() ==> self@.syncs(
                        taken(self@.slots, i as nat)[k],
                        #[trigger] out@[k],
                    ),
            decreases self.slots@.len() - i,
        {
            assert(self@.slots[i as int] == self.slots@[i as int]@);
            if self.slots[i].alive {
                let peers = self.peers_of(i);
                let bad_syncs: u64 = self.bad_syncs(i);
                let offset = map_offsets(self.receivers[i].user.as_str(), self.receivers[i].privacy);
                let user = self.receivers[i].user.clone();
                out.push(SyncReport { rx: i, user, peers, bad_syncs, offset });
            }
            i = i + 1;
        }
        out
    }

    /// The peers in `peers` that are left out of solves.
    fn bad_among(&self, rx: usize, peers: &Vec<usize>) -> (r: Vec<usize>)
        requires
            self@.orderly(),
            is_listing(peers@, self@.peers(rx)),
        ensures
            is_listing(r@, self@.bad_peers(rx)),
    {
        let mut out: Vec<usize> = Vec::new();
        let mut i: usize = 0;
        while i < peers.len()
            invariant
                i <= peers@.len(),
                self@.orderly(),
                self@.slots == slot_views(self.slots@),
                is_listing(peers@, self@.peers(rx)),
                out@.no_duplicates(),
                forall|b: usize| #[trigger]
                    out@.contains(b) <==> (peers@.take(i as int).contains(b)
                        && self@.slots[b as int].bias.quarantined()),
            decreases peers@.len() - i,
        {
            let b: usize = peers[i];
            let ghost head = peers@.take(i as int);
            let ghost before = out@;
            proof {
                assert(peers@.contains(b));
                assert(self@.pairs.contains_key((rx, b)));
                assert(self@.slots[b as int] == self.slots@[b as int]@);
                assert(peers@.take(i + 1) =~= head.push(b));
                assert(!head.contains(b)) by {
                    if head.contains(b) {
                        let k = choose|k: int| 0 <= k < head.len() && head[k] == b;
                        assert(peers@[k] == peers@[i as int]);
                    }
                }
            }
            assert(!before.contains(b));
            let bad: bool = self.slots[b].bias.is_quarantined();
            if bad {
                out.push(b);
            }
            assert forall|x: usize| #[trigger] out@.contains(x) <==> (peers@.take(i + 1).contains(x)
                && self@.slots[x as int].bias.quarantined()) by {
                lemma_contains_push(head, b, x);
                lemma_contains_push(before, b, x);
                assert(before.contains(x) <==> (head.contains(x)
                    && self@.slots[x as int].bias.quarantined()));
            }
            i = i + 1;
        }
        proof {
            assert(peers@.take(i as int) =~= peers@);
            assert forall|x: usize| out@.contains(x) <==> #[trigger] self@.bad_peers(rx).contains(x) by {
                assert(out@.contains(x) <==> (peers@.contains(x)
                    && self@.slots[x as int].bias.quarantined()));
                assert(peers@.contains(x) <==> self@.peers(rx).contains(x));
            }
            lemma_listing(out@, self@.bad_peers(rx));
        }
        out
    }

    /// Exports one connected receiver.
    fn export_client(&mut self, rx: usize, now: i64) -> (r: ClientReport)
        requires
            old(self)@.orderly(),
            old(self)@.alive(rx),
        ensures
            final(self)@ == (StateView {
                slots: old(self)@.slots.update(
                    rx as int,
                    slot_exported(old(self)@.slots[rx as int], now),
                ),
                ..old(self)@
            }),
            old(self)@.contributes(rx, now, r),
    {
        let ghost before = self@;
        assert(before.slots[rx as int] == self.slots@[rx as int]@);
        let peers = self.peers_of(rx);
        let bad_peers = self.bad_among(rx, &peers);
        let bad_sync_timeout: u64 = 15 * self.bad_syncs(rx);
        assert(self@.slots[rx as int].is_fair());
        let outliers: u64 = self.slots[rx].score.find_outlier_tenths();
        let msgs: u64 = self.slots[rx].msgs;
        let message_rate: u64 = per_second(msgs);
        self.slots[rx].sync.retain(&Newer { now, limit: INTEREST_NS });
        self.slots[rx].mlat.retain(&Newer { now, limit: INTEREST_NS });
        self.slots[rx].msgs = 0;
        let syncs = keys_of(&self.slots[rx].sync);
        let mlats = keys_of(&self.slots[rx].mlat);
        let sync_interest = write_names(&syncs);
        let mlat_interest = write_names(&mlats);
        let user = self.receivers[rx].user.clone();
        proof {
            let slot = before.slots[rx as int];
            let after = slot_exported(slot, now);
            assert(self.slots@[rx as int].sync@ =~= after.sync);
            assert(self.slots@[rx as int].mlat@ =~= after.mlat);
            assert(slot_views(self.slots@) =~= before.slots.update(rx as int, after));
            assert(self@ =~= (StateView {
                slots: before.slots.update(rx as int, after),
                ..before
            }));
            assert(in_order(syncs@, fresh(slot.sync, now).dom()));
            assert(in_order(mlats@, fresh(slot.mlat, now).dom()));
        }
        ClientReport {
            rx,
            user,
            message_rate,
            peer_count: peers.len(),
            bad_sync_timeout,
            outlier_tenths: outliers,
            bad_peers,
            sync_interest,
            mlat_interest,
        }
    }

    /// The serials of the receivers in some slots.
    fn serials_of(&self, list: &Vec<usize>) -> (r: Vec<u64>)
        requires
            forall|i: int| 0 <= i < list@.len() ==> list@[i] < self@.receivers.len(),
        ensures
            r@ == self@.serials(list@),
    {
        let mut out: Vec<u64> = Vec::new();
        let mut i: usize = 0;
        while i < list.len()
            invariant
                i <= list@.len(),
                self@.receivers == self.receivers@,
                forall|k: int| 0 <= k < list@.len() ==> list@[k] < self@.receivers.len(),
                out@ == self@.serials(list@).take(i as int),
            decreases list@.len() - i,
        {
            out.push(self.receivers[list[i]].uid);
            i = i + 1;
            assert(out@ =~= self@.serials(list@).take(i as int));
        }
        assert(out@ =~= self@.serials(list@));
        out
    }

    /// The last fix of an aircraft.
    fn report_fix(&self, icao: u32, a: &AcLog, now: i64) -> (r: Option<FixReport>)
        ensures
            self@.fix_told(icao, a@, now, r),
    {
        let f: Fix = match a.last_fix {
            Some(f) => f,
            None => return None,
        };
        let alt_ft: Option<i32> = match self.alts_ft.get(&icao) {
            Some(alt) => Some(*alt),
            None => None,
        };
        let motion: Option<Motion> = match a.prev_fix {
            Some(p) => {
                let dt: i128 = f.at as i128 - p.at as i128;
                if 0 < dt && dt < MOTION_NS {
                    Some(Motion { from: p.pos, dt_ns: dt as i64 })
                } else {
                    None
                }
            },
            None => None,
        };
        Some(FixReport { age_tenths: tenths_since(now, f.at), pos: f.pos, alt_ft, motion })
    }

    /// Exports one aircraft: what stays remembered of it, and what is told.
    fn export_aircraft(&self, icao: u32, a: AcLog, now: i64) -> (r: (AcLog, AircraftReport))
        requires
            self@.orderly(),
            a@.is_fair(),
        ensures
            r.0@ == self@.ac_exported(a@, now),
            self@.tells(icao, a@, now, r.1),
    {
        let ghost before = a@;
        let fix = self.report_fix(icao, &a, now);
        let mut a = a;
        a.rx_mlat.retain(&Hearing { now, slots: &self.slots });
        a.rx_sync.retain(&Hearing { now, slots: &self.slots });
        let ghost m = self@.hearing(before.rx_mlat, now);
        let ghost y = self@.hearing(before.rx_sync, now);
        proof {
            assert forall|i: usize, gen: u32| #[trigger]
                self@.live(RxRef { idx: i, gen }) <==> (i < self.slots@.len()
                    && self.slots@[i as int].alive && self.slots@[i as int].gen == gen) by {
                if i < self.slots@.len() {
                    assert(self@.slots[i as int] == self.slots@[i as int]@);
                }
            }
            assert(a.rx_mlat@ =~= m);
            assert(a.rx_sync@ =~= y);
        }
        let mut tracking: Vec<usize> = Vec::new();
        put_keys(&mut tracking, &a.rx_mlat);
        put_keys(&mut tracking, &a.rx_sync);
        proof {
            lemma_rising(tracking@);
            assert forall|i: usize| #[trigger] tracking@.contains(i) <==> m.dom().union(
                y.dom(),
            ).contains(i) by {}
            lemma_listing(tracking@, m.dom().union(y.dom()));
            assert forall|i: int| 0 <= i < tracking@.len() implies tracking@[i]
                < self@.receivers.len() by {
                assert(tracking@.contains(tracking@[i]));
                let k = tracking@[i];
                assert(m.contains_key(k) || y.contains_key(k));
                assert(self@.alive(k));
            }
        }
        let mlat_interest: usize = a.rx_mlat.len();
        let sync_interest: usize = a.rx_sync.len();
        let elapsed_tenths: i64 = tenths_since(now, a.seen);
        let sync_count: u64 = find_sync_count(a.good, a.bad);
        let sync_bad: u64 = find_sync_bad(a.good, a.bad);
        let (mlat_messages, mlat_results) = (a.msgs, a.results);
        a.good = a.good.fade_slowly();
        a.bad = a.bad.fade_slowly();
        let tracking_receivers: Option<Vec<u64>> = if elapsed_tenths > QUIET_TENTHS {
            Some(self.serials_of(&tracking))
        } else {
            None
        };
        assert(a@ =~= self@.ac_exported(before, now));
        (
            a,
            AircraftReport {
                icao,
                key: upper(write_icao(icao).as_str()),
                elapsed_tenths,
                interesting: mlat_interest > 0,
                allow_mlat: 1,
                tracking,
                sync_interest,
                mlat_interest,
                adsb_seen: sync_interest,
                mlat_messages,
                mlat_results,
                kalman_count: 0,
                sync_count,
                sync_bad_tenths: sync_bad,
                fix,
                tracking_receivers,
            },
        )
    }

    /// Exports the connected receivers, in slot order.
    fn export_clients(&mut self, now: i64) -> (r: Vec<ClientReport>)
        requires
            old(self)@.orderly(),
        ensures
            final(self)@ == (StateView {
                slots: slots_exported(old(self)@.slots, now, old(self)@.slots.len() as int),
                ..old(self)@
            }),
            r@.len() == taken(old(self)@.slots, old(self)@.slots.len()).len(),
            forall|k: int|
                0 <= k < r@.len() ==> old(self)@.contributes(
                    taken(old(self)@.slots, old(self)@.slots.len())[k],
                    now,
                    #[trigger] r@[k],
                ),
    {
        let ghost before = self@;
        let mut out: Vec<ClientReport> = Vec::new();
        let mut i: usize = 0;
        assert(slots_exported(before.slots, now, 0) =~= before.slots);
        assert(self@ =~= (StateView { slots: slots_exported(before.slots, now, 0), ..before }));
        while i < self.slots.len()
            invariant
                i <= self.slots@.len(),
                self.slots@.len() == before.slots.len(),
                before.orderly(),
                self@.slots == slot_views(self.slots@),
                self@ == (StateView {
                    slots: slots_exported(before.slots, now, i as int),
                    ..before
                }),
                out@.len() == taken(before.slots, i as nat).len(),
                forall|k: int|
                    0 <= k < out@.len() ==> before.contributes(
                        taken(before.slots, i as nat)[k],
                        now,
                        #[trigger] out@[k],
                    ),
            decreases self.slots@.len() - i,
        {
            let ghost mid = self@;
            proof {
                lemma_exported_orderly(before, now, i as int);
                assert(mid.slots[i as int] == before.slots[i as int]);
                assert(mid.slots[i as int] == self.slots@[i as int]@);
            }
            if self.slots[i].alive {
                let rep = self.export_client(i, now);
                proof {
                    lemma_contributes(before, now, i as int, i, rep);
                    assert(slots_exported(before.slots, now, i + 1)
                        =~= slots_exported(before.slots, now, i as int).update(
                        i as int,
                        slot_exported(before.slots[i as int], now),
                    ));
                }
                out.push(rep);
            } else {
                assert(slots_exported(before.slots, now, i + 1) =~= slots_exported(
                    before.slots,
                    now,
                    i as int,
                ));
            }
            i = i + 1;
            assert(self@ =~= (StateView {
                slots: slots_exported(before.slots, now, i as int),
                ..before
            }));
        }
        out
    }

    /// Exports the aircraft that were heard within the hour, and forgets the
    /// others.
    fn export_all_aircraft(&mut self, now: i64) -> (r: Vec<AircraftReport>)
        requires
            old(self)@.orderly(),
        ensures
            final(self)@ == (StateView {
                ac_log: Map::new(
                    |c: u32| old(self)@.remembered(now).contains_key(c),
                    |c: u32| old(self)@.ac_exported(old(self)@.remembered(now)[c], now),
                ),
                ..old(self)@
            }),
            is_listing(addresses(r@), old(self)@.remembered(now).dom()),
            forall|k: int|
                0 <= k < r@.len() ==> old(self)@.tells(
                    r@[k].icao,
                    old(self)@.ac_log[r@[k].icao],
                    now,
                    #[trigger] r@[k],
                ),
    {
        let ghost before = self@;
        let ghost known = before.remembered(now);
        let ghost target = Map::new(
            |c: u32| known.contains_key(c),
            |c: u32| before.ac_exported(known[c], now),
        );
        self.ac_log.retain(&Remembered { now });
        assert(self.ac_log@ =~= known);
        let mut list = self.ac_log.part(&Never {  });
        let ghost rows = row_views(list@);
        let ghost all = list@;
        proof {
            assert(map_of(rows) =~= known);
            assert(self.ac_log@ =~= Map::<u32, AcView>::empty());
            lemma_map_of(rows);
        }
        let mut out: Vec<AircraftReport> = Vec::new();
        let mut n: usize = list.len();
        while n > 0
            invariant
                n == list@.len(),
                n <= all.len(),
                list@ == all.take(n as int),
                rows == row_views(all),
                distinct_keys(rows),
                map_of(rows) == known,
                known == before.remembered(now),
                before.orderly(),
                self@ == (StateView { ac_log: self@.ac_log, ..before }),
                self@.ac_log == self.ac_log@,
                forall|c: u32| #[trigger]
                    self@.ac_log.contains_key(c) <==> has_key(rows.skip(n as int), c),
                forall|c: u32| #[trigger]
                    self@.ac_log.contains_key(c) ==> known.contains_key(c) && self@.ac_log[c]
                        == before.ac_exported(known[c], now),
                out@.len() == all.len() - n,
                forall|k: int|
                    0 <= k < out@.len() ==> (#[trigger] out@[k]).icao == rows[all.len() - 1 - k].0,
                forall|k: int|
                    0 <= k < out@.len() ==> before.tells(
                        out@[k].icao,
                        before.ac_log[out@[k].icao],
                        now,
                        #[trigger] out@[k],
                    ),
            decreases n,
        {
            n = n - 1;
            let (icao, a) = list.pop().unwrap();
            let ghost mid = self@;
            let ghost rest = rows.skip(n + 1);
            proof {
                assert(list@ =~= all.take(n as int));
                assert(all[n as int] == (icao, a));
                assert(rows[n as int] == (icao, a@));
                lemma_map_of(rows);
                assert(known.contains_key(rows[n as int].0));
                assert(before.ac_log.contains_key(icao));
                assert(before.ac_log[icao] == a@);
                assert(before.ac_log[icao].is_fair());
                lemma_log_swap(before, mid, now);
            }
            let (b, rep) = self.export_aircraft(icao, a, now);
            self.ac_log.insert(icao, b);
            out.push(rep);
            proof {
                assert(self@ =~= (StateView { ac_log: self@.ac_log, ..before }));
                assert(rows.skip(n as int) =~= seq![rows[n as int]] + rest);
                assert forall|c: u32| #[trigger] self@.ac_log.contains_key(c) <==> has_key(
                    rows.skip(n as int),
                    c,
                ) by {
                    assert(mid.ac_log.contains_key(c) <==> has_key(rest, c));
                    if has_key(rest, c) {
                        let k = row_of(rest, c);
                        assert(rows.skip(n as int)[k + 1].0 == c);
                    }
                    assert(rows.skip(n as int)[0].0 == icao);
                    if has_key(rows.skip(n as int), c) {
                        let k = row_of(rows.skip(n as int), c);
                        if k > 0 {
                            assert(rest[k - 1].0 == c);
                        }
                    }
                }
            }
        }
        proof {
            assert(rows.skip(0) =~= rows);
            assert forall|c: u32| self@.ac_log.contains_key(c) <==> #[trigger] target.contains_key(
                c,
            ) by {
                assert(self@.ac_log.contains_key(c) <==> has_key(rows, c));
                assert(map_of(rows).contains_key(c) <==> has_key(rows, c));
            }
            assert(self@.ac_log =~= target);
            lemma_reversed_keys(rows, addresses(out@));
        }
        out
    }

    /// What the shard tells of its receivers and its aircraft, once per export
    /// period: it fades the sync counts of the aircraft, starts the message counts
    /// anew, and forgets what is stale. Receivers come in slot order.
    pub fn state_json(&mut self, now: i64) -> (r: (Vec<ClientReport>, Vec<AircraftReport>))
        requires
            old(self)@.orderly(),
        ensures
            final(self)@ == old(self)@.exported(now),
            final(self)@.orderly(),
            r.0@.len() == taken(old(self)@.slots, old(self)@.slots.len()).len(),
            forall|k: int|
                0 <= k < r.0@.len() ==> old(self)@.contributes(
                    taken(old(self)@.slots, old(self)@.slots.len())[k],
                    now,
                    #[trigger] r.0@[k],
                ),
            is_listing(addresses(r.1@), old(self)@.remembered(now).dom()),
            forall|k: int|
                0 <= k < r.1@.len() ==> old(self)@.tells(
                    r.1@[k].icao,
                    old(self)@.ac_log[r.1@[k].icao],
                    now,
                    #[trigger] r.1@[k],
                ),
    {
        let ghost before = self@;
        let clients = self.export_clients(now);
        let ghost mid = self@;
        proof {
            lemma_exported_orderly(before, now, before.slots.len() as int);
        }
        let aircraft = self.export_all_aircraft(now);
        proof {
            assert(mid.remembered(now) == before.remembered(now));
            assert forall|r: RxRef| #[trigger] mid.live(r) == before.live(r) by {}
            assert forall|a: AcView| #[trigger] mid.ac_exported(a, now) == before.ac_exported(
                a,
                now,
            ) by {
                assert(mid.hearing(a.rx_mlat, now) =~= before.hearing(a.rx_mlat, now));
                assert(mid.hearing(a.rx_sync, now) =~= before.hearing(a.rx_sync, now));
            }
            assert(self@.ac_log =~= before.exported(now).ac_log);
            assert(self@ =~= before.exported(now));
            assert forall|k: int| 0 <= k < aircraft@.len() implies before.tells(
                aircraft@[k].icao,
                before.ac_log[aircraft@[k].icao],
                now,
                #[trigger] aircraft@[k],
            ) by {
                let a = before.ac_log[aircraft@[k].icao];
                assert(mid.tells(aircraft@[k].icao, a, now, aircraft@[k]));
                assert(mid.hearing(a.rx_mlat, now) =~= before.hearing(a.rx_mlat, now));
                assert(mid.hearing(a.rx_sync, now) =~= before.hearing(a.rx_sync, now));
                assert(mid.serials(aircraft@[k].tracking@) =~= before.serials(
                    aircraft@[k].tracking@,
                ));
            }
            lemma_export_orderly(before, now);
        }
        (clients, aircraft)
    }
}

/// The addresses that reports tell of.
pub open spec fn addresses(list: Seq<AircraftReport>) -> Seq<u32> {
    list.map_values(|r: AircraftReport| r.icao)
}

proof fn lemma_exported_orderly<M>(s: StateView<M>, now: i64, n: int)
    requires
        s.orderly(),
    ensures
        (StateView { slots: slots_exported(s.slots, now, n), ..s }).orderly(),
{
    let t = StateView { slots: slots_exported(s.slots, now, n), ..s };
    lemma_reports_orderly(s, t);
}

/// An export keeps the state orderly.
pub proof fn lemma_export_orderly<M>(s: StateView<M>, now: i64)
    requires
        s.orderly(),
    ensures
        s.exported(now).orderly(),
{
    let t = s.exported(now);
    assert forall|c: u32| #[trigger] t.ac_log.contains_key(c) implies c < ADDRESS_END
        && t.ac_log[c].is_fair() by {
        assert(s.ac_log.contains_key(c));
        assert(s.ac_log[c].is_fair());
        lemma_stays_fair(s.ac_log[c].good);
        lemma_stays_fair(s.ac_log[c].bad);
    }
    lemma_reports_orderly(s, t);
}

/// A receiver's report speaks of its own slot, its pairs and its peers' biases.
proof fn lemma_contributes<M>(s: StateView<M>, now: i64, n: int, rx: usize, r: ClientReport)
    requires
        n <= rx < s.slots.len(),
        s.orderly(),
        (StateView { slots: slots_exported(s.slots, now, n), ..s }).contributes(rx, now, r),
    ensures
        s.contributes(rx, now, r),
{
    let t = StateView { slots: slots_exported(s.slots, now, n), ..s };
    assert(t.slots[rx as int] == s.slots[rx as int]);
    assert(t.peers(rx) =~= s.peers(rx));
    assert(t.bad_peers(rx) =~= s.bad_peers(rx)) by {
        assert forall|b: usize| t.bad_peers(rx).contains(b) <==> #[trigger] s.bad_peers(
            rx,
        ).contains(b) by {
            if s.pairs.contains_key((rx, b)) {
                assert(s.alive(b));
                assert(t.slots[b as int].bias == s.slots[b as int].bias);
            }
        }
    }
}

/// What is remembered of aircraft does not bear on what is told of one.
proof fn lemma_log_swap<M>(s: StateView<M>, t: StateView<M>, now: i64)
    requires
        s.orderly(),
        t == (StateView { ac_log: t.ac_log, ..s }),
        forall|c: u32| #[trigger]
            t.ac_log.contains_key(c) ==> s.remembered(now).contains_key(c) && t.ac_log[c]
                == s.ac_exported(s.remembered(now)[c], now),
    ensures
        t.orderly(),
        forall|a: AcView| #[trigger] t.ac_exported(a, now) == s.ac_exported(a, now),
        forall|c: u32, a: AcView, r: AircraftReport| #[trigger]
            t.tells(c, a, now, r) ==> s.tells(c, a, now, r),
{
    assert forall|r: RxRef| #[trigger] t.live(r) == s.live(r) by {}
    assert forall|a: AcView| #[trigger] t.ac_exported(a, now) == s.ac_exported(a, now) by {
        assert(t.hearing(a.rx_mlat, now) =~= s.hearing(a.rx_mlat, now));
        assert(t.hearing(a.rx_sync, now) =~= s.hearing(a.rx_sync, now));
    }
    assert forall|c: u32, a: AcView, r: AircraftReport| #[trigger]
        t.tells(c, a, now, r) implies s.tells(c, a, now, r) by {
        assert(t.hearing(a.rx_mlat, now) =~= s.hearing(a.rx_mlat, now));
        assert(t.hearing(a.rx_sync, now) =~= s.hearing(a.rx_sync, now));
        assert(t.serials(r.tracking@) =~= s.serials(r.tracking@));
    }
    assert forall|c: u32| #[trigger] t.ac_log.contains_key(c) implies c < ADDRESS_END
        && t.ac_log[c].is_fair() by {
        assert(s.remembered(now).contains_key(c));
        assert(s.ac_log[c].is_fair());
        lemma_stays_fair(s.ac_log[c].good);
        lemma_stays_fair(s.ac_log[c].bad);
    }
    lemma_reports_orderly(s, t);
}

/// The keys of a table, read from the last row to the first.
proof fn lemma_reversed_keys(rows: Seq<(u32, AcView)>, list: Seq<u32>)
    requires
        distinct_keys(rows),
        list.len() == rows.len(),
        forall|k: int| 0 <= k < list.len() ==> #[trigger] list[k] == rows[rows.len() - 1 - k].0,
    ensures
        is_listing(list, map_of(rows).dom()),
{
    lemma_map_of(rows);
    assert forall|c: u32| #[trigger] list.contains(c) <==> map_of(rows).dom().contains(c) by {
        if list.contains(c) {
            let k = choose|k: int| 0 <= k < list.len() && list[k] == c;
            assert(rows[rows.len() - 1 - k].0 == c);
        }
        if map_of(rows).contains_key(c) {
            let j = row_of(rows, c);
            assert(has_key(rows, c));
            assert(list[rows.len() - 1 - j] == c);
        }
    }
    assert forall|a: int, b: int| 0 <= a < list.len() && 0 <= b < list.len() && a != b implies list[a]
        != list[b] by {
        let (a0, b0) = (rows.len() - 1 - a, rows.len() - 1 - b);
        if a0 < b0 {
            assert(rows[a0].0 != rows[b0].0);
        } else {
            assert(rows[b0].0 != rows[a0].0);
        }
    }
    lemma_listing(list, map_of(rows).dom());
}

} // verus!
