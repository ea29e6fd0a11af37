//! The state of one shard.
//!
//! A shard owns one [`State`] and works on it in one task. Positions and the
//! pair clock models (`M`) are held here and computed elsewhere: a caller
//! hands in what a decoder, a model or the solver found, and is told what to
//! ask of them next.

use vstd::prelude::*;
use crate::bias::RxBias;
use crate::geo::{Ecef, Geodetic};
use crate::table::Table;
use crate::tally::{Score, Tally};
#[allow(unused_imports)]
use crate::frames::ADDRESS_END;

pub mod arrivals;
pub mod exports;
pub mod history;
pub mod intake;
pub mod laws;
pub mod publish;
pub mod report;
pub mod rounds;
pub mod slots;
pub mod solves;
pub mod sweep;
pub mod verdict;

verus! {

/// What is known of a connected receiver.
pub struct ReceiverInfo {
    pub user: String,
    /// Process-wide serial of the connection.
    pub uid: u64,
    pub uuid: Option<String>,
    pub privacy: bool,
    /// One line on the connection for the client list.
    pub connection_info: String,
    pub source_ip: String,
    pub source_port: u16,
    pub geo: Geodetic,
    pub ecef: Ecef,
    pub freq_hz: u64,
    pub gps: bool,
    /// Expected timing error (1 sigma): clock jitter and pair-model slack.
    pub jitter_fs: i128,
}

/// A receiver slot with the generation it was issued with. Slots are used
/// again across reconnects; the generation tells stale holders apart.
#[derive(Clone, Copy, PartialEq, Eq, Debug, Structural)]
pub struct RxRef {
    pub idx: usize,
    pub gen: u32,
}

/// A pair model as a table value.
pub struct Held<M> {
    pub model: M,
}

impl<M> View for Held<M> {
    type V = M;

    open spec fn view(&self) -> M {
        self.model
    }
}

/// The publication state of one aircraft.
#[derive(Clone, Copy, PartialEq, Eq, Debug)]
pub struct Track {
    pub last_pos: Option<Geodetic>,
    /// When the last fix was accepted.
    pub last_time: i64,
    /// When a solve was last tried.
    pub last_attempt: i64,
    /// Fixes in a row that the speed gate refused.
    pub speed_rejects: u32,
}

impl View for Track {
    type V = Track;

    open spec fn view(&self) -> Track {
        *self
    }
}

impl Track {
    /// An aircraft that has no fix yet.
    pub open spec fn blank() -> Track {
        Track { last_pos: None, last_time: 0, last_attempt: 0, speed_rejects: 0 }
    }

    pub fn new() -> (r: Track)
        ensures
            r == Track::blank(),
    {
        Track { last_pos: None, last_time: 0, last_attempt: 0, speed_rejects: 0 }
    }
}

/// Where an aircraft itself says it is, and when it said so.
#[derive(Clone, Copy, PartialEq, Eq, Debug, Structural)]
pub struct Claim {
    pub pos: Geodetic,
    pub at: i64,
}

impl View for Claim {
    type V = Claim;

    open spec fn view(&self) -> Claim {
        *self
    }
}

/// When a connection was last heard of, in a memory that is kept by slot.
#[derive(Clone, Copy, PartialEq, Eq, Debug, Structural)]
pub struct Heard {
    /// The generation of the slot's holder then.
    pub gen: u32,
    pub at: i64,
}

impl View for Heard {
    type V = Heard;

    open spec fn view(&self) -> Heard {
        *self
    }
}

/// A connection that reported a sync pair, with both transmit times on its
/// clock.
#[derive(Clone, Copy, PartialEq, Eq, Debug, Structural)]
pub struct Reporter {
    pub rx: RxRef,
    pub even_fs: i128,
    pub odd_fs: i128,
}

/// One sync pair and the receivers that heard it.
pub struct SyncPoint {
    pub created: u64,
    pub reporters: Vec<Reporter>,
}

/// The model of [`SyncPoint`].
pub struct SyncPointView {
    pub created: u64,
    pub reporters: Seq<Reporter>,
}

impl View for SyncPoint {
    type V = SyncPointView;

    open spec fn view(&self) -> SyncPointView {
        SyncPointView { created: self.created, reporters: self.reporters@ }
    }
}

/// A frame as one connection heard it.
#[derive(Clone, Copy, PartialEq, Eq, Debug, Structural)]
pub struct Entry {
    pub rx: RxRef,
    /// Arrival on the receiver's clock.
    pub t_fs: i128,
    /// Output clock when it came in.
    pub at: i64,
}

/// One frame and the receivers that heard it. One content can stand for
/// several transmissions, so each entry keeps its own time.
pub struct Group {
    pub created: u64,
    pub icao: u32,
    pub df17: bool,
    pub entries: Vec<Entry>,
}

/// The model of [`Group`].
pub struct GroupView {
    pub created: u64,
    pub icao: u32,
    pub df17: bool,
    pub entries: Seq<Entry>,
}

impl View for Group {
    type V = GroupView;

    open spec fn view(&self) -> GroupView {
        GroupView {
            created: self.created,
            icao: self.icao,
            df17: self.df17,
            entries: self.entries@,
        }
    }
}

/// What a slot holds beside the receiver itself.
struct Slot {
    gen: u32,
    alive: bool,
    bias: RxBias,
    /// What its sync observations were worth to the pair models.
    score: Score,
    /// Messages since the last export.
    msgs: u64,
    /// When the receiver last reported a sync pair, by aircraft.
    sync: Table<u32, i64>,
    /// When the receiver last reported a single frame, by aircraft.
    mlat: Table<u32, i64>,
}

/// The model of a slot.
#[verifier::ext_equal]
pub struct SlotView {
    pub gen: u32,
    pub alive: bool,
    pub bias: RxBias,
    pub score: Score,
    pub msgs: u64,
    pub sync: Map<u32, i64>,
    pub mlat: Map<u32, i64>,
}

impl SlotView {
    /// A slot as it is handed out.
    pub open spec fn fresh(gen: u32) -> SlotView {
        SlotView {
            gen,
            alive: true,
            bias: RxBias::fresh(),
            score: Score::zero(),
            msgs: 0,
            sync: Map::empty(),
            mlat: Map::empty(),
        }
    }

    /// Its counts are within what is counted, and it reported aircraft with
    /// 24-bit addresses only.
    pub open spec fn is_fair(self) -> bool {
        &&& self.score.is_fair()
        &&& forall|c: u32| #[trigger] self.sync.contains_key(c) ==> c < ADDRESS_END
        &&& forall|c: u32| #[trigger] self.mlat.contains_key(c) ==> c < ADDRESS_END
    }
}

impl View for Slot {
    type V = SlotView;

    closed spec fn view(&self) -> SlotView {
        SlotView {
            gen: self.gen,
            alive: self.alive,
            bias: self.bias,
            score: self.score,
            msgs: self.msgs,
            sync: self.sync@,
            mlat: self.mlat@,
        }
    }
}

impl Slot {
    fn new(gen: u32) -> (r: Slot)
        ensures
            r@ == SlotView::fresh(gen),
    {
        Slot {
            gen,
            alive: true,
            bias: RxBias::new(),
            score: Score::new(),
            msgs: 0,
            sync: Table::new(),
            mlat: Table::new(),
        }
    }
}

spec fn slot_views(slots: Seq<Slot>) -> Seq<SlotView> {
    slots.map_values(|s: Slot| s@)
}

/// An accepted fix.
#[derive(Clone, Copy, PartialEq, Eq, Debug, Structural)]
pub struct Fix {
    pub at: i64,
    pub pos: Geodetic,
}

/// What the export remembers of one aircraft.
struct AcLog {
    seen: i64,
    /// Sync observations of it that the pair models took, fading.
    good: Tally,
    /// Sync observations of it that they refused, fading.
    bad: Tally,
    msgs: u64,
    results: u64,
    last_fix: Option<Fix>,
    prev_fix: Option<Fix>,
    /// When a single frame was last reported from each slot, and by whom.
    rx_mlat: Table<usize, Heard>,
    /// When a sync pair was last reported from each slot, and by whom.
    rx_sync: Table<usize, Heard>,
}

/// The model of what the export remembers of one aircraft.
#[verifier::ext_equal]
pub struct AcView {
    pub seen: i64,
    pub good: Tally,
    pub bad: Tally,
    pub msgs: u64,
    pub results: u64,
    pub last_fix: Option<Fix>,
    pub prev_fix: Option<Fix>,
    pub rx_mlat: Map<usize, Heard>,
    pub rx_sync: Map<usize, Heard>,
}

impl AcView {
    /// An aircraft that nothing is known of.
    pub open spec fn blank() -> AcView {
        AcView {
            seen: 0,
            good: Tally::zero(),
            bad: Tally::zero(),
            msgs: 0,
            results: 0,
            last_fix: None,
            prev_fix: None,
            rx_mlat: Map::empty(),
            rx_sync: Map::empty(),
        }
    }

    /// Its counts are within what a tally counts.
    pub open spec fn is_fair(self) -> bool {
        self.good.is_fair() && self.bad.is_fair()
    }
}

impl View for AcLog {
    type V = AcView;

    closed spec fn view(&self) -> AcView {
        AcView {
            seen: self.seen,
            good: self.good,
            bad: self.bad,
            msgs: self.msgs,
            results: self.results,
            last_fix: self.last_fix,
            prev_fix: self.prev_fix,
            rx_mlat: self.rx_mlat@,
            rx_sync: self.rx_sync@,
        }
    }
}

impl AcLog {
    fn new() -> (r: AcLog)
        ensures
            r@ == AcView::blank(),
    {
        AcLog {
            seen: 0,
            good: Tally::new(),
            bad: Tally::new(),
            msgs: 0,
            results: 0,
            last_fix: None,
            prev_fix: None,
            rx_mlat: Table::new(),
            rx_sync: Table::new(),
        }
    }
}

/// Everything one shard knows.
pub struct State<M> {
    shard_id: usize,
    /// Whether DF17 frames are multilaterated too.
    pub mlat_adsb: bool,
    emit_filtered: bool,
    pub receivers: Vec<ReceiverInfo>,
    slots: Vec<Slot>,
    free_slots: Vec<usize>,
    by_user: Table<String, usize>,
    reference: Option<usize>,
    pairs: Table<(usize, usize), Held<M>>,
    syncpoints: Table<(String, String), SyncPoint>,
    groups: Table<String, Group>,
    alts_ft: Table<u32, i32>,
    adsb_pos: Table<u32, Claim>,
    tracks: Table<u32, Track>,
    ac_log: Table<u32, AcLog>,
    /// Least offset seen between the output clock and a reference clock.
    stamp_offset: Table<usize, i128>,
    pub stats_solved: u64,
    pub stats_rejected: u64,
    pub stats_sync_obs: u64,
}

/// The model of [`State`].
#[verifier::ext_equal]
pub struct StateView<M> {
    pub shard_id: usize,
    pub mlat_adsb: bool,
    pub emit_filtered: bool,
    pub receivers: Seq<ReceiverInfo>,
    pub slots: Seq<SlotView>,
    pub free: Seq<usize>,
    pub by_user: Map<Seq<char>, usize>,
    pub reference: Option<usize>,
    pub pairs: Map<(usize, usize), M>,
    pub syncpoints: Map<(Seq<char>, Seq<char>), SyncPointView>,
    pub groups: Map<Seq<char>, GroupView>,
    pub alts_ft: Map<u32, i32>,
    pub adsb_pos: Map<u32, Claim>,
    pub tracks: Map<u32, Track>,
    pub ac_log: Map<u32, AcView>,
    pub stamp_offset: Map<usize, i128>,
    pub solved: u64,
    pub rejected: u64,
    pub sync_obs: u64,
}

impl<M> View for State<M> {
    type V = StateView<M>;

    closed spec fn view(&self) -> StateView<M> {
        StateView {
            shard_id: self.shard_id,
            mlat_adsb: self.mlat_adsb,
            emit_filtered: self.emit_filtered,
            receivers: self.receivers@,
            slots: slot_views(self.slots@),
            free: self.free_slots@,
            by_user: self.by_user@,
            reference: self.reference,
            pairs: self.pairs@,
            syncpoints: self.syncpoints@,
            groups: self.groups@,
            alts_ft: self.alts_ft@,
            adsb_pos: self.adsb_pos@,
            tracks: self.tracks@,
            ac_log: self.ac_log@,
            stamp_offset: self.stamp_offset@,
            solved: self.stats_solved,
            rejected: self.stats_rejected,
            sync_obs: self.stats_sync_obs,
        }
    }
}

/// A counter after one more event; it starts over at its end.
pub open spec fn bumped(n: u64) -> u64 {
    if n == u64::MAX {
        0
    } else {
        (n + 1) as u64
    }
}

/// Reporters that one sync pair trains with, at most.
pub const MAX_REPORTERS: usize = 15;

/// Speed-gate refusals in a row that start a track over.
pub const MAX_SPEED_REJECTS: u32 = 5;

impl<M> StateView<M> {
    /// Slot `i` exists and is taken.
    pub open spec fn alive(self, i: usize) -> bool {
        i < self.slots.len() && self.slots[i as int].alive
    }

    /// `r` is the current holder of its slot.
    pub open spec fn live(self, r: RxRef) -> bool {
        self.alive(r.idx) && self.slots[r.idx as int].gen == r.gen
    }

    /// The free slots are the dead ones, each listed once.
    pub open spec fn slots_orderly(self) -> bool {
        &&& self.receivers.len() == self.slots.len()
        &&& self.slots.len() <= usize::MAX
        &&& self.free.no_duplicates()
        &&& forall|i: int|
            0 <= i < self.free.len() ==> #[trigger] self.free[i] < self.slots.len()
                && !self.alive(self.free[i])
        &&& forall|i: usize|
            i < self.slots.len() && !(#[trigger] self.alive(i)) ==> self.free.contains(i)
    }

    /// A user name leads to the one taken slot that has it.
    pub open spec fn users_orderly(self) -> bool {
        &&& forall|u: Seq<char>| #[trigger]
            self.by_user.contains_key(u) ==> self.alive(self.by_user[u])
                && self.receivers[self.by_user[u] as int].user@ == u
        &&& forall|i: usize| #[trigger]
            self.alive(i) ==> self.by_user.contains_key(self.receivers[i as int].user@)
                && self.by_user[self.receivers[i as int].user@] == i
    }

    /// A pair model stands between two different taken slots.
    pub open spec fn pairs_orderly(self) -> bool {
        forall|a: usize, b: usize| #[trigger]
            self.pairs.contains_key((a, b)) ==> a != b && self.alive(a) && self.alive(b)
    }

    /// What is remembered keeps its limits.
    pub open spec fn memory_orderly(self) -> bool {
        &&& self.reference is Some ==> self.reference->0 < self.slots.len()
        &&& forall|k: (Seq<char>, Seq<char>)| #[trigger]
            self.syncpoints.contains_key(k) ==> self.syncpoints[k].reporters.len() <= MAX_REPORTERS
        &&& forall|i: int| 0 <= i < self.slots.len() ==> (#[trigger] self.slots[i]).is_fair()
        &&& forall|c: u32| #[trigger]
            self.ac_log.contains_key(c) ==> c < ADDRESS_END && self.ac_log[c].is_fair()
        &&& forall|c: u32| #[trigger] self.alts_ft.contains_key(c) ==> c < ADDRESS_END
        &&& forall|c: u32| #[trigger]
            self.tracks.contains_key(c) ==> self.tracks[c].speed_rejects < MAX_SPEED_REJECTS
    }

    /// What every operation keeps.
    pub open spec fn orderly(self) -> bool {
        &&& self.slots_orderly()
        &&& self.users_orderly()
        &&& self.pairs_orderly()
        &&& self.memory_orderly()
    }

    /// A shard that nobody has connected to.
    pub open spec fn empty(shard_id: usize, mlat_adsb: bool, emit_filtered: bool) -> StateView<M> {
        StateView {
            shard_id,
            mlat_adsb,
            emit_filtered,
            receivers: Seq::empty(),
            slots: Seq::empty(),
            free: Seq::empty(),
            by_user: Map::empty(),
            reference: None,
            pairs: Map::empty(),
            syncpoints: Map::empty(),
            groups: Map::empty(),
            alts_ft: Map::empty(),
            adsb_pos: Map::empty(),
            tracks: Map::empty(),
            ac_log: Map::empty(),
            stamp_offset: Map::empty(),
            solved: 0,
            rejected: 0,
            sync_obs: 0,
        }
    }
}

impl<M> State<M> {
    /// A shard that nobody has connected to.
    pub fn new(shard_id: usize, mlat_adsb: bool, emit_filtered: bool) -> (r: Self)
        ensures
            r@ == StateView::<M>::empty(shard_id, mlat_adsb, emit_filtered),
            r@.orderly(),
    {
        let r = State {
            shard_id,
            mlat_adsb,
            emit_filtered,
            receivers: Vec::new(),
            slots: Vec::new(),
            free_slots: Vec::new(),
            by_user: Table::new(),
            reference: None,
            pairs: Table::new(),
            syncpoints: Table::new(),
            groups: Table::new(),
            alts_ft: Table::new(),
            adsb_pos: Table::new(),
            tracks: Table::new(),
            ac_log: Table::new(),
            stamp_offset: Table::new(),
            stats_solved: 0,
            stats_rejected: 0,
            stats_sync_obs: 0,
        };
        assert(r@ =~= StateView::<M>::empty(shard_id, mlat_adsb, emit_filtered));
        r
    }

    /// The receiver in slot `i`.
    pub fn receiver(&self, i: usize) -> (res: Option<&ReceiverInfo>)
        ensures
            match res {
                Some(info) => i < self@.receivers.len() && *info == self@.receivers[i as int],
                None => i >= self@.receivers.len(),
            },
    {
        if i < self.receivers.len() {
            Some(&self.receivers[i])
        } else {
            None
        }
    }

    /// Whether `r` is the current holder of its slot.
    pub fn live(&self, r: RxRef) -> (res: bool)
        ensures
            res == self@.live(r),
    {
        r.idx < self.slots.len() && self.slots[r.idx].alive && self.slots[r.idx].gen == r.gen
    }

    /// Fixes published so far.
    pub fn solved(&self) -> (res: u64)
        ensures
            res == self@.solved,
    {
        self.stats_solved
    }

    /// Clusters and fixes refused so far.
    pub fn rejected(&self) -> (res: u64)
        ensures
            res == self@.rejected,
    {
        self.stats_rejected
    }

    /// Sync observations so far.
    pub fn sync_obs(&self) -> (res: u64)
        ensures
            res == self@.sync_obs,
    {
        self.stats_sync_obs
    }

    /// Whether smoothed twins of the rows are wanted.
    pub fn wants_filtered(&self) -> (res: bool)
        ensures
            res == self@.emit_filtered,
    {
        self.emit_filtered
    }
}

} // verus!
