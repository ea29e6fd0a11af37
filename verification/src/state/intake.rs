//! What receivers report: single frames to group, sync pairs to train on.

use vstd::prelude::*;
use crate::frames::{frame_bytes, has_df17, is_pair, Airborne, Frame};
#[allow(unused_imports)]
use crate::frames::{bytes_of, is_df17, paired, ADDRESS_END};
#[allow(unused_imports)]
use crate::tally::{lemma_score_stays_fair, lemma_stays_fair};
use crate::geo::Geodetic;
use crate::state::{AcLog, Claim, Entry, Group, Heard, Held, Reporter, RxRef, State, SyncPoint};
#[allow(unused_imports)]
use crate::state::slots::{lemma_same_seats, same_seats};
#[allow(unused_imports)]
use crate::state::{
    bumped, slot_views, AcView, GroupView, SlotView, StateView, SyncPointView, MAX_SPEED_REJECTS,
};
use crate::state::MAX_REPORTERS;

verus! {

/// What a decoded sync pair says: where the aircraft claims to be, when the
/// even frame arrived, and when each half was sent, on the receiver's clock.
pub struct SyncFix {
    pub claimed: Geodetic,
    pub arrival_fs: i128,
    pub even_fs: i128,
    pub odd_fs: i128,
}

/// One observation for the pair models of two receivers: the same event by
/// either clock.
#[derive(Clone, Copy, PartialEq, Eq, Debug, Structural)]
pub struct Training {
    pub rx: usize,
    pub other: usize,
    pub t_fs: i128,
    pub other_fs: i128,
    pub icao: u32,
}

/// One half of a sync pair as two reporters heard it.
pub open spec fn half_lesson(me: Reporter, o: Reporter, odd: bool, icao: u32) -> Training {
    Training {
        rx: me.rx.idx,
        other: o.rx.idx,
        t_fs: if odd {
            me.odd_fs
        } else {
            me.even_fs
        },
        other_fs: if odd {
            o.odd_fs
        } else {
            o.even_fs
        },
        icao,
    }
}

impl<M> StateView<M> {
    /// What the export remembers of `icao`; of a new aircraft, nothing.
    pub open spec fn ac(self, icao: u32) -> AcView {
        if self.ac_log.contains_key(icao) {
            self.ac_log[icao]
        } else {
            AcView::blank()
        }
    }

    /// The group of frames with content `m`; of new content, an empty one.
    pub open spec fn group(self, m: Seq<char>, icao: u32, df17: bool, now: u64) -> GroupView {
        if self.groups.contains_key(m) {
            self.groups[m]
        } else {
            GroupView { created: now, icao, df17, entries: Seq::empty() }
        }
    }

    /// The state once `r` has reported a frame of `icao`.
    pub open spec fn heard(
        self,
        r: RxRef,
        icao: u32,
        m: Seq<char>,
        df17: bool,
        t_fs: i128,
        at: i64,
        now: u64,
    ) -> StateView<M> {
        let slot = self.slots[r.idx as int];
        let a = self.ac(icao);
        let g = self.group(m, icao, df17, now);
        StateView {
            slots: self.slots.update(
                r.idx as int,
                SlotView { msgs: bumped(slot.msgs), mlat: slot.mlat.insert(icao, at), ..slot },
            ),
            ac_log: self.ac_log.insert(
                icao,
                AcView {
                    seen: at,
                    msgs: bumped(a.msgs),
                    rx_mlat: a.rx_mlat.insert(r.idx, Heard { gen: r.gen, at }),
                    ..a
                },
            ),
            groups: self.groups.insert(
                m,
                GroupView { entries: g.entries.push(Entry { rx: r, t_fs, at }), ..g },
            ),
            ..self
        }
    }

    /// The state with the altitude that a frame reports.
    pub open spec fn with_altitude(self, report: Option<(u32, i32)>) -> StateView<M> {
        match report {
            Some((icao, alt)) => StateView { alts_ft: self.alts_ft.insert(icao, alt), ..self },
            None => self,
        }
    }

    /// The state once `r` has sent the frame with text `m`. A stale holder, a
    /// text that is no hex and a frame without a usable address change nothing.
    pub open spec fn after_mlat(
        self,
        r: RxRef,
        frame: Frame,
        m: Seq<char>,
        t_fs: i128,
        at: i64,
        now: u64,
    ) -> StateView<M> {
        match (self.live(r), bytes_of(m), frame.address(self.mlat_adsb)) {
            (true, Some(b), Some(icao)) => self.with_altitude(frame.report()).heard(
                r,
                icao,
                m,
                is_df17(b),
                t_fs,
                at,
                now,
            ),
            _ => self,
        }
    }

    /// The state once `r` has reported a sync pair of `icao`.
    pub open spec fn synced(self, r: RxRef, icao: u32, at: i64) -> StateView<M> {
        let slot = self.slots[r.idx as int];
        let a = self.ac(icao);
        StateView {
            slots: self.slots.update(
                r.idx as int,
                SlotView { msgs: bumped(slot.msgs), sync: slot.sync.insert(icao, at), ..slot },
            ),
            ac_log: self.ac_log.insert(
                icao,
                AcView { seen: at, rx_sync: a.rx_sync.insert(r.idx, Heard { gen: r.gen, at }), ..a },
            ),
            ..self
        }
    }

    /// The state with where `icao` says it is.
    pub open spec fn claimed(self, icao: u32, pos: Geodetic, at: i64) -> StateView<M> {
        StateView { adsb_pos: self.adsb_pos.insert(icao, Claim { pos, at }), ..self }
    }

    /// The receivers that reported the pair `key` so far.
    pub open spec fn reporters(self, key: (Seq<char>, Seq<char>)) -> Seq<Reporter> {
        if self.syncpoints.contains_key(key) {
            self.syncpoints[key].reporters
        } else {
            Seq::empty()
        }
    }

    /// When the pair `key` was first reported.
    pub open spec fn since(self, key: (Seq<char>, Seq<char>), now: u64) -> u64 {
        if self.syncpoints.contains_key(key) {
            self.syncpoints[key].created
        } else {
            now
        }
    }

    /// The state with one more reporter of the pair `key`, up to the cap.
    pub open spec fn shared(
        self,
        key: (Seq<char>, Seq<char>),
        reporter: Reporter,
        now: u64,
    ) -> StateView<M> {
        let so_far = self.reporters(key);
        if so_far.len() >= MAX_REPORTERS {
            self
        } else {
            StateView {
                syncpoints: self.syncpoints.insert(
                    key,
                    SyncPointView {
                        created: self.since(key, now),
                        reporters: so_far.push(reporter),
                    },
                ),
                ..self
            }
        }
    }

    /// The pair of `r` counts: it is the current holder, both texts are hex, and
    /// they are the two halves of one aircraft's position.
    pub open spec fn pair_counts(
        self,
        r: RxRef,
        em: Seq<char>,
        om: Seq<char>,
        even: Option<Airborne>,
        odd: Option<Airborne>,
    ) -> bool {
        self.live(r) && bytes_of(em) is Some && bytes_of(om) is Some && paired(even, odd)
    }

    /// The state before a pair that counts and has a position is shared: the
    /// aircraft's report and claim are noted, and where DF17 frames are
    /// multilaterated the even one goes to the groups.
    pub open spec fn noted(
        self,
        r: RxRef,
        em: Seq<char>,
        even: Airborne,
        fix: SyncFix,
        at: i64,
        now: u64,
    ) -> StateView<M> {
        let s = self.synced(r, even.icao, at).with_altitude(
            match even.alt_ft {
                Some(alt) => Some((even.icao, alt)),
                None => None,
            },
        ).claimed(even.icao, fix.claimed, at);
        if self.mlat_adsb {
            s.after_mlat(r, Frame::Position(Some(even.icao)), em, fix.arrival_fs, at, now)
        } else {
            s
        }
    }

    /// The state once `r` has sent a sync pair.
    pub open spec fn after_sync(
        self,
        r: RxRef,
        em: Seq<char>,
        om: Seq<char>,
        even: Option<Airborne>,
        odd: Option<Airborne>,
        fix: Option<SyncFix>,
        at: i64,
        now: u64,
    ) -> StateView<M> {
        if !self.pair_counts(r, em, om, even, odd) {
            self
        } else {
            match fix {
                None => self.synced(r, even->0.icao, at),
                Some(f) => self.noted(r, em, even->0, f, at, now).shared(
                    (em, om),
                    Reporter { rx: r, even_fs: f.even_fs, odd_fs: f.odd_fs },
                    now,
                ),
            }
        }
    }

    /// What a reporter is to be trained on with those before it: both halves,
    /// with everyone who is another receiver and still connected.
    pub open spec fn lessons(self, earlier: Seq<Reporter>, me: Reporter, icao: u32) -> Seq<Training>
        decreases earlier.len(),
    {
        if earlier.len() == 0 {
            Seq::empty()
        } else {
            let head = self.lessons(earlier.drop_last(), me, icao);
            let o = earlier.last();
            if o.rx.idx == me.rx.idx || !self.live(o.rx) {
                head
            } else {
                head.push(half_lesson(me, o, false, icao)).push(half_lesson(me, o, true, icao))
            }
        }
    }

    /// What a sync pair is to be trained on: nothing where it does not count or
    /// has no position, and nothing once the cap is reached.
    pub open spec fn lessons_of(
        self,
        r: RxRef,
        em: Seq<char>,
        om: Seq<char>,
        even: Option<Airborne>,
        odd: Option<Airborne>,
        fix: Option<SyncFix>,
    ) -> Seq<Training> {
        if self.pair_counts(r, em, om, even, odd) && fix is Some && self.reporters((em, om)).len()
            < MAX_REPORTERS {
            self.lessons(
                self.reporters((em, om)),
                Reporter { rx: r, even_fs: fix->0.even_fs, odd_fs: fix->0.odd_fs },
                even->0.icao,
            )
        } else {
            Seq::empty()
        }
    }

    /// The two receivers of an observation are different and connected, and the
    /// aircraft has an address that aircraft can have.
    pub open spec fn can_train(self, job: Training) -> bool {
        job.rx != job.other && self.alive(job.rx) && self.alive(job.other) && job.icao
            < ADDRESS_END
    }

    /// The state once both models of a pair have seen an observation; `took`
    /// is the verdict of the first.
    pub open spec fn trained(
        self,
        job: Training,
        forward: M,
        backward: M,
        took: bool,
    ) -> StateView<M> {
        let slot = self.slots[job.rx as int];
        let a = self.ac(job.icao);
        StateView {
            pairs: self.pairs.insert((job.rx, job.other), forward).insert(
                (job.other, job.rx),
                backward,
            ),
            slots: self.slots.update(
                job.rx as int,
                SlotView { score: slot.score.counted(took), ..slot },
            ),
            ac_log: self.ac_log.insert(
                job.icao,
                if took {
                    AcView { good: a.good.up(), ..a }
                } else {
                    AcView { bad: a.bad.up(), ..a }
                },
            ),
            sync_obs: bumped(self.sync_obs),
            ..self
        }
    }
}

/// Reports that keep the limits keep the state orderly.
pub proof fn lemma_reports_orderly<M>(s: StateView<M>, t: StateView<M>)
    requires
        s.orderly(),
        same_seats(s, t),
        forall|c: u32| #[trigger]
            t.tracks.contains_key(c) ==> t.tracks[c].speed_rejects < MAX_SPEED_REJECTS,
        forall|a: usize, b: usize| #[trigger]
            t.pairs.contains_key((a, b)) ==> s.pairs.contains_key((a, b)) || (a != b && s.alive(a)
                && s.alive(b)),
        forall|k: (Seq<char>, Seq<char>)| #[trigger]
            t.syncpoints.contains_key(k) ==> t.syncpoints[k].reporters.len() <= MAX_REPORTERS,
        forall|i: int| 0 <= i < t.slots.len() ==> (#[trigger] t.slots[i]).is_fair(),
        forall|c: u32| #[trigger]
            t.ac_log.contains_key(c) ==> c < ADDRESS_END && t.ac_log[c].is_fair(),
        forall|c: u32| #[trigger] t.alts_ft.contains_key(c) ==> c < ADDRESS_END,
    ensures
        t.orderly(),
{
    lemma_same_seats(s, t);
    assert forall|a: usize, b: usize| #[trigger] t.pairs.contains_key((a, b)) implies a != b
        && t.alive(a) && t.alive(b) by {
        if s.pairs.contains_key((a, b)) {
        }
    }
}

/// What is remembered of an aircraft is fair.
pub proof fn lemma_fair<M>(s: StateView<M>, icao: u32)
    requires
        s.orderly(),
    ensures
        s.ac(icao).is_fair(),
        s.ac(icao).good.up().is_fair(),
        s.ac(icao).bad.up().is_fair(),
{
    if s.ac_log.contains_key(icao) {
        assert(s.ac_log[icao].is_fair());
    }
    lemma_stays_fair(s.ac(icao).good);
    lemma_stays_fair(s.ac(icao).bad);
}

/// A reported frame keeps the state orderly.
pub proof fn lemma_mlat_orderly<M>(
    s: StateView<M>,
    r: RxRef,
    frame: Frame,
    m: Seq<char>,
    t_fs: i128,
    at: i64,
    now: u64,
)
    requires
        s.orderly(),
    ensures
        s.after_mlat(r, frame, m, t_fs, at, now).orderly(),
        same_seats(s, s.after_mlat(r, frame, m, t_fs, at, now)),
{
    let t = s.after_mlat(r, frame, m, t_fs, at, now);
    if let (true, Some(b), Some(icao)) = (s.live(r), bytes_of(m), frame.address(s.mlat_adsb)) {
        let w = s.with_altitude(frame.report());
        assert(t == w.heard(r, icao, m, is_df17(b), t_fs, at, now));
        lemma_fair(s, icao);
        lemma_reports_orderly(s, t);
    }
}

proof fn lemma_synced_orderly<M>(s: StateView<M>, r: RxRef, icao: u32, at: i64)
    requires
        s.orderly(),
        s.live(r),
        icao < ADDRESS_END,
    ensures
        s.synced(r, icao, at).orderly(),
        same_seats(s, s.synced(r, icao, at)),
{
    lemma_fair(s, icao);
    lemma_reports_orderly(s, s.synced(r, icao, at));
}

proof fn lemma_noted_orderly<M>(
    s: StateView<M>,
    r: RxRef,
    em: Seq<char>,
    even: Airborne,
    fix: SyncFix,
    at: i64,
    now: u64,
)
    requires
        s.orderly(),
        s.live(r),
        even.icao < ADDRESS_END,
    ensures
        s.noted(r, em, even, fix, at, now).orderly(),
        same_seats(s, s.noted(r, em, even, fix, at, now)),
        s.noted(r, em, even, fix, at, now).syncpoints == s.syncpoints,
{
    let a = s.synced(r, even.icao, at);
    lemma_synced_orderly(s, r, even.icao, at);
    let b = a.with_altitude(
        match even.alt_ft {
            Some(alt) => Some((even.icao, alt)),
            None => None,
        },
    ).claimed(even.icao, fix.claimed, at);
    lemma_reports_orderly(a, b);
    if s.mlat_adsb {
        lemma_mlat_orderly(
            b,
            r,
            Frame::Position(Some(even.icao)),
            em,
            fix.arrival_fs,
            at,
            now,
        );
    }
}

/// Noting a pair leaves the pair models and the observations alone, and what
/// other slots report.
pub proof fn lemma_noted_keeps<M>(
    s: StateView<M>,
    r: RxRef,
    em: Seq<char>,
    even: Airborne,
    fix: SyncFix,
    at: i64,
    now: u64,
)
    requires
        s.live(r),
    ensures
        ({
            let t = s.noted(r, em, even, fix, at, now);
            &&& t.syncpoints == s.syncpoints
            &&& t.pairs == s.pairs
            &&& t.sync_obs == s.sync_obs
            &&& t.slots.len() == s.slots.len()
            &&& t.slots[r.idx as int].sync.contains_key(even.icao)
            &&& forall|i: int|
                0 <= i < s.slots.len() && i != r.idx ==> (#[trigger] t.slots[i]).sync
                    == s.slots[i].sync
            &&& forall|i: int, c: u32|
                0 <= i < s.slots.len() && s.slots[i].sync.contains_key(c) ==> (
                #[trigger] t.slots[i].sync.contains_key(c))
        }),
{
}

/// A reported pair keeps the state orderly.
pub proof fn lemma_sync_orderly<M>(
    s: StateView<M>,
    r: RxRef,
    em: Seq<char>,
    om: Seq<char>,
    even: Option<Airborne>,
    odd: Option<Airborne>,
    fix: Option<SyncFix>,
    at: i64,
    now: u64,
)
    requires
        s.orderly(),
    ensures
        s.after_sync(r, em, om, even, odd, fix, at, now).orderly(),
        same_seats(s, s.after_sync(r, em, om, even, odd, fix, at, now)),
{
    if s.pair_counts(r, em, om, even, odd) {
        lemma_synced_orderly(s, r, even->0.icao, at);
        if let Some(f) = fix {
            lemma_noted_orderly(s, r, em, even->0, f, at, now);
            let n = s.noted(r, em, even->0, f, at, now);
            let me = Reporter { rx: r, even_fs: f.even_fs, odd_fs: f.odd_fs };
            let t = n.shared((em, om), me, now);
            if n.syncpoints.contains_key((em, om)) {
                assert(n.syncpoints[(em, om)].reporters.len() <= MAX_REPORTERS);
            }
            lemma_reports_orderly(n, t);
        }
    }
}

/// An observation keeps the state orderly.
pub proof fn lemma_trained_orderly<M>(
    s: StateView<M>,
    job: Training,
    forward: M,
    backward: M,
    took: bool,
)
    requires
        s.orderly(),
        s.can_train(job),
    ensures
        s.trained(job, forward, backward, took).orderly(),
        same_seats(s, s.trained(job, forward, backward, took)),
{
    let t = s.trained(job, forward, backward, took);
    lemma_fair(s, job.icao);
    lemma_score_stays_fair(s.slots[job.rx as int].score);
    lemma_reports_orderly(s, t);
}

/// Whom to train with is a matter of who is connected.
proof fn lemma_lessons<M>(
    s: StateView<M>,
    t: StateView<M>,
    earlier: Seq<Reporter>,
    me: Reporter,
    icao: u32,
)
    requires
        same_seats(s, t),
    ensures
        s.lessons(earlier, me, icao) == t.lessons(earlier, me, icao),
    decreases earlier.len(),
{
    if earlier.len() > 0 {
        lemma_lessons(s, t, earlier.drop_last(), me, icao);
        let o = earlier.last();
        if o.rx.idx < s.slots.len() {
            assert(t.slots[o.rx.idx as int].alive == s.slots[o.rx.idx as int].alive);
        }
    }
}

impl<M> State<M> {
    fn take_ac(&mut self, icao: u32) -> (r: AcLog)
        ensures
            r@ == old(self)@.ac(icao),
            final(self)@ == (StateView {
                ac_log: old(self)@.ac_log.remove(icao),
                ..old(self)@
            }),
    {
        match self.ac_log.take(&icao) {
            Some(a) => a,
            None => AcLog::new(),
        }
    }

    /// A frame from `r`: what a decoder found in it, its text, its arrival on
    /// the receiver's clock and on the output clock. Equal texts are grouped
    /// across receivers.
    pub fn on_mlat(&mut self, r: RxRef, frame: Frame, m_hex: &str, t_fs: i128, at: i64, now: u64)
        requires
            old(self)@.orderly(),
        ensures
            final(self)@ == old(self)@.after_mlat(r, frame, m_hex@, t_fs, at, now),
            final(self)@.orderly(),
    {
        let ghost before = self@;
        proof {
            lemma_mlat_orderly(before, r, frame, m_hex@, t_fs, at, now);
        }
        if !self.live(r) {
            return;
        }
        let rx: usize = r.idx;
        let bytes: Vec<u8> = match frame_bytes(m_hex) {
            Some(b) => b,
            None => return,
        };
        let icao: u32 = match frame.used_address(self.mlat_adsb) {
            Some(i) => i,
            None => return,
        };
        if let Some((who, alt)) = frame.altitude() {
            self.alts_ft.insert(who, alt);
        }
        let ghost mid = before.with_altitude(frame.report());
        assert(self@ =~= mid);
        let mut a = self.take_ac(icao);
        a.seen = at;
        a.msgs = a.msgs.wrapping_add(1);
        a.rx_mlat.insert(rx, Heard { gen: r.gen, at });
        self.ac_log.insert(icao, a);
        self.slots[rx].msgs = self.slots[rx].msgs.wrapping_add(1);
        self.slots[rx].mlat.insert(icao, at);
        let key: String = m_hex.to_owned();
        let mut g: Group = match self.groups.take(&key) {
            Some(g) => g,
            None => Group { created: now, icao, df17: has_df17(&bytes), entries: Vec::new() },
        };
        g.entries.push(Entry { rx: r, t_fs, at });
        self.groups.insert(key, g);
        proof {
            let after = mid.heard(r, icao, m_hex@, is_df17(bytes@), t_fs, at, now);
            assert(slot_views(self.slots@) =~= after.slots);
            assert(self.ac_log@ =~= after.ac_log);
            assert(self.groups@ =~= after.groups);
            assert(self@ =~= after);
        }
    }

    /// A sync pair from `r`: one aircraft's even and odd position frames, as
    /// texts and as a decoder read them, and what they say where their position
    /// could be decoded. The same pair heard by several receivers is the shared
    /// event that trains pair clocks; the result lists what to train.
    pub fn on_sync(
        &mut self,
        r: RxRef,
        em_hex: &str,
        om_hex: &str,
        even: Option<Airborne>,
        odd: Option<Airborne>,
        fix: Option<SyncFix>,
        at: i64,
        now: u64,
    ) -> (jobs: Vec<Training>)
        requires
            old(self)@.orderly(),
        ensures
            final(self)@ == old(self)@.after_sync(r, em_hex@, om_hex@, even, odd, fix, at, now),
            final(self)@.orderly(),
            jobs@ == old(self)@.lessons_of(r, em_hex@, om_hex@, even, odd, fix),
            forall|i: int| 0 <= i < jobs@.len() ==> final(self)@.can_train(#[trigger] jobs@[i]),
    {
        let ghost before = self@;
        proof {
            lemma_sync_orderly(before, r, em_hex@, om_hex@, even, odd, fix, at, now);
        }
        if !self.live(r) {
            return Vec::new();
        }
        let rx: usize = r.idx;
        if frame_bytes(em_hex).is_none() || frame_bytes(om_hex).is_none() {
            return Vec::new();
        }
        if !is_pair(&even, &odd) {
            return Vec::new();
        }
        let de: Airborne = match even {
            Some(d) => d,
            None => return Vec::new(),
        };
        let icao: u32 = de.icao;
        let mut a = self.take_ac(icao);
        a.seen = at;
        a.rx_sync.insert(rx, Heard { gen: r.gen, at });
        self.ac_log.insert(icao, a);
        self.slots[rx].msgs = self.slots[rx].msgs.wrapping_add(1);
        self.slots[rx].sync.insert(icao, at);
        let ghost synced = before.synced(r, icao, at);
        proof {
            assert(slot_views(self.slots@) =~= synced.slots);
            assert(self.ac_log@ =~= synced.ac_log);
            assert(self@ =~= synced);
        }
        let f: SyncFix = match fix {
            Some(f) => f,
            None => return Vec::new(),
        };
        if let Some(alt) = de.alt_ft {
            self.alts_ft.insert(icao, alt);
        }
        self.adsb_pos.insert(icao, Claim { pos: f.claimed, at });
        proof {
            lemma_synced_orderly(before, r, icao, at);
            lemma_reports_orderly(synced, self@);
            lemma_noted_orderly(before, r, em_hex@, de, f, at, now);
        }
        if self.mlat_adsb {
            self.on_mlat(r, Frame::Position(Some(icao)), em_hex, f.arrival_fs, at, now);
        }
        let ghost noted = before.noted(r, em_hex@, de, f, at, now);
        assert(self@ =~= noted);
        let me = Reporter { rx: r, even_fs: f.even_fs, odd_fs: f.odd_fs };
        proof {
            lemma_lessons(before, noted, before.reporters((em_hex@, om_hex@)), me, icao);
        }
        self.share(em_hex, om_hex, me, icao, now)
    }

    /// Notes one more reporter of a sync pair and lists what to train.
    fn share(
        &mut self,
        em_hex: &str,
        om_hex: &str,
        me: Reporter,
        icao: u32,
        now: u64,
    ) -> (jobs: Vec<Training>)
        requires
            old(self)@.orderly(),
            old(self)@.live(me.rx),
            icao < ADDRESS_END,
        ensures
            final(self)@ == old(self)@.shared((em_hex@, om_hex@), me, now),
            jobs@ == (if old(self)@.reporters((em_hex@, om_hex@)).len() < MAX_REPORTERS {
                old(self)@.lessons(old(self)@.reporters((em_hex@, om_hex@)), me, icao)
            } else {
                Seq::empty()
            }),
            forall|i: int| 0 <= i < jobs@.len() ==> old(self)@.can_train(#[trigger] jobs@[i]),
    {
        let ghost before = self@;
        let key: (String, String) = (em_hex.to_owned(), om_hex.to_owned());
        let ghost k = (em_hex@, om_hex@);
        assert(key@ == k);
        let mut sp: SyncPoint = match self.syncpoints.take(&key) {
            Some(sp) => sp,
            None => SyncPoint { created: now, reporters: Vec::new() },
        };
        assert(sp.reporters@ == before.reporters(k));
        assert(sp.created == before.since(k, now));
        if sp.reporters.len() >= MAX_REPORTERS {
            self.syncpoints.insert(key, sp);
            assert(self.syncpoints@ =~= before.syncpoints);
            assert(self@ =~= before);
            return Vec::new();
        }
        let mut jobs: Vec<Training> = Vec::new();
        let mut i: usize = 0;
        while i < sp.reporters.len()
            invariant
                i <= sp.reporters@.len(),
                sp.reporters@.len() <= MAX_REPORTERS,
                before.orderly(),
                before.live(me.rx),
                icao < ADDRESS_END,
                self@.slots == before.slots,
                jobs@ == before.lessons(sp.reporters@.take(i as int), me, icao),
                forall|j: int| 0 <= j < jobs@.len() ==> before.can_train(#[trigger] jobs@[j]),
            decreases sp.reporters@.len() - i,
        {
            let o: Reporter = sp.reporters[i];
            proof {
                let next = sp.reporters@.take(i + 1);
                assert(next.drop_last() =~= sp.reporters@.take(i as int));
                assert(next.last() == o);
            }
            if o.rx.idx != me.rx.idx && self.live(o.rx) {
                let (rx, other) = (me.rx.idx, o.rx.idx);
                jobs.push(Training { rx, other, t_fs: me.even_fs, other_fs: o.even_fs, icao });
                jobs.push(Training { rx, other, t_fs: me.odd_fs, other_fs: o.odd_fs, icao });
            }
            i = i + 1;
        }
        assert(sp.reporters@.take(i as int) =~= sp.reporters@);
        sp.reporters.push(me);
        self.syncpoints.insert(key, sp);
        proof {
            let after = before.shared(k, me, now);
            assert(self.syncpoints@ =~= after.syncpoints);
            assert(self@ =~= after);
        }
        jobs
    }

    /// The model that turns times of `a` into times of `b`.
    pub fn pair(&self, a: usize, b: usize) -> (r: Option<&M>)
        ensures
            match r {
                Some(m) => self@.pairs.contains_key((a, b)) && *m == self@.pairs[(a, b)],
                None => !self@.pairs.contains_key((a, b)),
            },
    {
        let key: (usize, usize) = (a, b);
        assert(key@ == (a, b));
        match self.pairs.get(&key) {
            Some(h) => Some(&h.model),
            None => None,
        }
    }

    /// Takes a model out, to be handed back changed.
    pub fn take_pair(&mut self, a: usize, b: usize) -> (r: Option<M>)
        requires
            old(self)@.orderly(),
        ensures
            final(self)@ == (StateView {
                pairs: old(self)@.pairs.remove((a, b)),
                ..old(self)@
            }),
            final(self)@.orderly(),
            match r {
                Some(m) => old(self)@.pairs.contains_key((a, b)) && m == old(self)@.pairs[(a, b)],
                None => !old(self)@.pairs.contains_key((a, b)),
            },
    {
        let ghost before = self@;
        let key: (usize, usize) = (a, b);
        assert(key@ == (a, b));
        let taken = self.pairs.take(&key);
        proof {
            assert(self@ =~= (StateView { pairs: before.pairs.remove((a, b)), ..before }));
            lemma_reports_orderly(before, self@);
        }
        match taken {
            Some(h) => Some(h.model),
            None => None,
        }
    }

    /// Hands a model back.
    pub fn put_pair(&mut self, a: usize, b: usize, model: M)
        requires
            old(self)@.orderly(),
            a != b,
            old(self)@.alive(a),
            old(self)@.alive(b),
        ensures
            final(self)@ == (StateView {
                pairs: old(self)@.pairs.insert((a, b), model),
                ..old(self)@
            }),
            final(self)@.orderly(),
    {
        let ghost before = self@;
        let key: (usize, usize) = (a, b);
        assert(key@ == (a, b));
        self.pairs.insert(key, Held { model });
        proof {
            assert(self@ =~= (StateView { pairs: before.pairs.insert((a, b), model), ..before }));
            lemma_reports_orderly(before, self@);
        }
    }

    /// Both models of a pair have seen an observation: keeps them, and counts
    /// the verdict of the first.
    pub fn train(&mut self, job: &Training, forward: M, backward: M, took: bool)
        requires
            old(self)@.orderly(),
            old(self)@.can_train(*job),
        ensures
            final(self)@ == old(self)@.trained(*job, forward, backward, took),
            final(self)@.orderly(),
    {
        let ghost before = self@;
        proof {
            lemma_trained_orderly(before, *job, forward, backward, took);
        }
        let rx: usize = job.rx;
        assert(before.slots[rx as int].is_fair());
        proof {
            lemma_fair(before, job.icao);
        }
        let there: (usize, usize) = (job.rx, job.other);
        let back: (usize, usize) = (job.other, job.rx);
        assert(there@ == (job.rx, job.other) && back@ == (job.other, job.rx));
        self.pairs.insert(there, Held { model: forward });
        self.pairs.insert(back, Held { model: backward });
        let mut a = self.take_ac(job.icao);
        self.slots[rx].score = self.slots[rx].score.count(took);
        if took {
            a.good = a.good.count();
        } else {
            a.bad = a.bad.count();
        }
        self.ac_log.insert(job.icao, a);
        self.stats_sync_obs = self.stats_sync_obs.wrapping_add(1);
        proof {
            let after = before.trained(*job, forward, backward, took);
            assert(slot_views(self.slots@) =~= after.slots);
            assert(self.ac_log@ =~= after.ac_log);
            assert(self.pairs@ =~= after.pairs);
            assert(self@ =~= after);
        }
    }
}

} // verus!
