//! From a cluster of arrivals to a published fix.
//!
//! [`State::open_cluster`] decides whether a cluster is worth a solve and what
//! the solver is to be given; [`State::conclude`] judges what it found.

use vstd::prelude::*;
use crate::bias::round_off;
#[allow(unused_imports)]
use crate::bias::rounded;
use crate::clock::{in_fs, lag, later, within, NANOSECOND_FS};
#[allow(unused_imports)]
use crate::clock::{clip, recent};
use crate::cluster::{lists_slot, Arrival, MIN_RECEIVERS};
use crate::geo::Geodetic;
use crate::lines::Sighting;
use crate::state::{ReceiverInfo, State, Track, MAX_SPEED_REJECTS};
#[allow(unused_imports)]
use crate::frames::ADDRESS_END;
#[allow(unused_imports)]
use crate::state::intake::lemma_reports_orderly;
#[allow(unused_imports)]
use crate::state::slots::same_seats;
#[allow(unused_imports)]
use crate::state::{bumped, slot_views, StateView};
#[allow(unused_imports)]
use crate::text::texts;

verus! {

/// Observations that a solve takes at most.
pub const SOLVE_CAP: usize = 16;

/// Time between two solves of one aircraft: 0.4 s.
pub const BACKOFF_NS: i64 = 400_000_000;

/// Silence after which a solve without redundancy is allowed: 30 s.
pub const STARVED_NS: i64 = 30_000_000_000;

/// Age up to which the last fix is where the next solve starts: 60 s.
pub const WARM_NS: i64 = 60_000_000_000;

/// Age up to which a claimed position scores a fix: 5 s.
pub const CLAIM_NS: i128 = 5_000_000_000;

impl<M> StateView<M> {
    /// Slot `rx` is taken and trusted.
    pub open spec fn trusted(self, rx: usize) -> bool {
        self.alive(rx) && !self.slots[rx as int].bias.quarantined()
    }

    /// An arrival with the receiver's learned bias applied.
    pub open spec fn unbiased(self, a: Arrival) -> Arrival {
        Arrival { t_fs: clip(a.t_fs + self.slots[a.rx as int].bias.whole_fs()), ..a }
    }

    /// The observations in a cluster: the earliest arrival at each receiver, of
    /// those that are trusted.
    pub open spec fn sightings(self, cluster: Seq<Arrival>) -> Seq<Arrival>
        decreases cluster.len(),
    {
        if cluster.len() == 0 {
            Seq::empty()
        } else {
            let head = self.sightings(cluster.drop_last());
            let a = cluster.last();
            if heard_in(cluster.drop_last(), a.rx) || !self.trusted(a.rx) {
                head
            } else {
                head.push(self.unbiased(a))
            }
        }
    }

    /// Slot `rx` is taken and left out of solves.
    pub open spec fn sidelined(self, rx: usize) -> bool {
        self.alive(rx) && self.slots[rx as int].bias.quarantined()
    }

    /// The arrivals in a cluster that a solve leaves out and that it is compared
    /// with: the earliest one at each receiver, of those that are left out.
    pub open spec fn bystanders(self, cluster: Seq<Arrival>) -> Seq<Arrival>
        decreases cluster.len(),
    {
        if cluster.len() == 0 {
            Seq::empty()
        } else {
            let head = self.bystanders(cluster.drop_last());
            let a = cluster.last();
            if heard_in(cluster.drop_last(), a.rx) || !self.sidelined(a.rx) {
                head
            } else {
                head.push(self.unbiased(a))
            }
        }
    }

    /// The publication state of `icao`.
    pub open spec fn track(self, icao: u32) -> Track {
        if self.tracks.contains_key(icao) {
            self.tracks[icao]
        } else {
            Track::blank()
        }
    }

    /// The offset of the output clock from the clock of `reference`, once `obs`
    /// has been seen. A faster path is followed at once, a slower one slowly.
    pub open spec fn offset_after(self, reference: usize, obs: Seq<Arrival>) -> i128 {
        let delta = clip(least_at(obs) * NANOSECOND_FS - least_t(obs));
        if !self.stamp_offset.contains_key(reference) || delta < self.stamp_offset[reference] {
            delta
        } else {
            let o = self.stamp_offset[reference];
            clip(o + rounded(clip(delta - o) as int, 1000))
        }
    }

    /// When the transmission behind `obs` happened, by the output clock.
    pub open spec fn stamp(self, reference: usize, obs: Seq<Arrival>) -> i128 {
        clip(least_t(obs) + self.offset_after(reference, obs))
    }

    /// A solve of `kept` goes ahead: the aircraft was left alone for a while, a
    /// solve without redundancy is needed, and the altitude is known.
    pub open spec fn goes_ahead(self, icao: u32, kept: Seq<Arrival>, now: i64) -> bool {
        let track = self.track(icao);
        &&& !recent(now as int, track.last_attempt as int, BACKOFF_NS as int)
        &&& !self.redundancy_missing(icao, kept, now)
        &&& self.alts_ft.contains_key(icao)
    }

    /// The solve would have no redundancy, and there was a fix not long ago.
    pub open spec fn redundancy_missing(self, icao: u32, kept: Seq<Arrival>, now: i64) -> bool {
        kept.len() == MIN_RECEIVERS && recent(
            now as int,
            self.track(icao).last_time as int,
            STARVED_NS as int,
        )
    }

    /// The state once a cluster has been looked at.
    pub open spec fn after_cluster(
        self,
        icao: u32,
        reference: usize,
        cluster: Seq<Arrival>,
        now: i64,
    ) -> StateView<M> {
        let obs = self.sightings(cluster);
        let track = self.track(icao);
        let kept = precise(obs);
        if obs.len() < MIN_RECEIVERS {
            self
        } else {
            let s = StateView {
                stamp_offset: self.stamp_offset.insert(reference, self.offset_after(reference, obs)),
                tracks: self.tracks.insert(icao, track),
                ..self
            };
            if recent(now as int, track.last_attempt as int, BACKOFF_NS as int) {
                s
            } else if self.redundancy_missing(icao, kept, now) {
                StateView { rejected: bumped(self.rejected), ..s }
            } else if !self.alts_ft.contains_key(icao) {
                s
            } else {
                StateView {
                    tracks: self.tracks.insert(icao, Track { last_attempt: now, ..track }),
                    ..s
                }
            }
        }
    }

    /// Where `icao` says it is, where it said so within 5 s of `now`.
    pub open spec fn claim(self, icao: u32, now: i64) -> Option<Geodetic> {
        if self.adsb_pos.contains_key(icao) && -CLAIM_NS < now - self.adsb_pos[icao].at < CLAIM_NS {
            Some(self.adsb_pos[icao].pos)
        } else {
            None
        }
    }

    /// The names of the receivers of some observations.
    pub open spec fn names(self, obs: Seq<Arrival>) -> Seq<Seq<char>> {
        obs.map_values(|a: Arrival| self.receivers[a.rx as int].user@)
    }

    /// The positions of the receivers of some observations.
    pub open spec fn homes(self, obs: Seq<Arrival>) -> Seq<Geodetic> {
        obs.map_values(|a: Arrival| self.receivers[a.rx as int].geo)
    }

    /// `start` is where a solve of `icao` from `kept` begins: at the last fix
    /// where that is fresh, else at the receivers.
    pub open spec fn starts_at(
        self,
        icao: u32,
        kept: Seq<Arrival>,
        now: i64,
        start: Start,
    ) -> bool {
        let track = self.track(icao);
        if track.last_pos is Some && recent(now as int, track.last_time as int, WARM_NS as int) {
            start == Start::Warm(track.last_pos->0)
        } else {
            start matches Start::Centroid(list) && list@ == self.homes(kept)
        }
    }

    /// `att` is the solve that a cluster calls for.
    pub open spec fn calls_for(
        self,
        icao: u32,
        df17: bool,
        reference: usize,
        cluster: Seq<Arrival>,
        now: i64,
        att: Attempt,
    ) -> bool {
        let obs = self.sightings(cluster);
        let kept = precise(obs);
        &&& att.df17 == df17
        &&& att.now == now
        &&& att.obs@ == kept
        &&& att.aside@ == self.bystanders(cluster)
        &&& att.sighting.icao == icao
        &&& att.sighting.stamp_fs == self.stamp(reference, obs)
        &&& att.sighting.alt_ft == self.alts_ft[icao]
        &&& texts(att.sighting.users@) == self.names(kept)
        &&& att.last_pos == self.track(icao).last_pos
        &&& att.claimed == if df17 {
            self.claim(icao, now)
        } else {
            None
        }
        &&& self.starts_at(icao, kept, now, att.start)
    }

    /// `r` is the solve that a cluster calls for, where it is worth one.
    pub open spec fn opens(
        self,
        icao: u32,
        df17: bool,
        reference: usize,
        cluster: Seq<Arrival>,
        now: i64,
        r: Option<Attempt>,
    ) -> bool {
        let obs = self.sightings(cluster);
        let worth = obs.len() >= MIN_RECEIVERS && self.goes_ahead(icao, precise(obs), now);
        match r {
            Some(att) => worth && self.calls_for(icao, df17, reference, cluster, now, att),
            None => !worth,
        }
    }

    /// `att` speaks of slots that exist, and of an aircraft with an address that
    /// aircraft can have.
    pub open spec fn admits(self, att: Attempt) -> bool {
        &&& att.sighting.icao < ADDRESS_END
        &&& forall|i: int|
            0 <= i < att.obs@.len() ==> (#[trigger] att.obs@[i]).rx < self.slots.len()
        &&& forall|i: int|
            0 <= i < att.aside@.len() ==> (#[trigger] att.aside@[i]).rx < self.slots.len()
    }
}

/// Some arrival in `cluster` is at receiver `rx`.
pub open spec fn heard_in(cluster: Seq<Arrival>, rx: usize) -> bool {
    exists|i: int| 0 <= i < cluster.len() && (#[trigger] cluster[i]).rx == rx
}

/// The first moment at which one of the arrivals came in.
pub open spec fn least_at(obs: Seq<Arrival>) -> i64
    decreases obs.len(),
{
    if obs.len() <= 1 || obs.last().at < least_at(obs.drop_last()) {
        obs.last().at
    } else {
        least_at(obs.drop_last())
    }
}

/// The first arrival, by the reference clock.
pub open spec fn least_t(obs: Seq<Arrival>) -> i128
    decreases obs.len(),
{
    if obs.len() <= 1 || obs.last().t_fs < least_t(obs.drop_last()) {
        obs.last().t_fs
    } else {
        least_t(obs.drop_last())
    }
}

/// Observation `j` goes before observation `i`: it is more precise, or as
/// precise and earlier in the list.
pub open spec fn ahead(s: Seq<Arrival>, j: int, i: int) -> bool {
    s[j].sigma_fs < s[i].sigma_fs || (s[j].sigma_fs == s[i].sigma_fs && j < i)
}

/// Of the first `n` observations, how many go before observation `i`.
pub open spec fn rank(s: Seq<Arrival>, i: int, n: nat) -> nat
    decreases n,
{
    if n == 0 {
        0
    } else {
        rank(s, i, (n - 1) as nat) + if ahead(s, n - 1, i) {
            1nat
        } else {
            0
        }
    }
}

/// Of the first `n` observations, those that at most 15 of all go before.
pub open spec fn chosen(s: Seq<Arrival>, n: nat) -> Seq<Arrival>
    decreases n,
{
    if n == 0 {
        Seq::empty()
    } else {
        let head = chosen(s, (n - 1) as nat);
        if rank(s, n - 1, s.len()) < SOLVE_CAP {
            head.push(s[n - 1])
        } else {
            head
        }
    }
}

/// The observations of a solve: all, or the most precise ones where there are
/// too many, in the order in which they were.
pub open spec fn precise(s: Seq<Arrival>) -> Seq<Arrival> {
    if s.len() > SOLVE_CAP {
        chosen(s, s.len())
    } else {
        s
    }
}

/// Where a solve begins.
pub enum Start {
    /// At the last fix.
    Warm(Geodetic),
    /// In the middle of the receivers.
    Centroid(Vec<Geodetic>),
}

/// A solve to be made.
pub struct Attempt {
    pub df17: bool,
    pub now: i64,
    /// One arrival for each receiver.
    pub obs: Vec<Arrival>,
    /// One arrival for each receiver that is left out.
    pub aside: Vec<Arrival>,
    pub sighting: Sighting,
    pub start: Start,
    /// The last accepted fix.
    pub last_pos: Option<Geodetic>,
    /// Where the aircraft itself says it is, for a DF17 cluster.
    pub claimed: Option<Geodetic>,
}

proof fn lemma_heard_push(cluster: Seq<Arrival>, a: Arrival, rx: usize)
    ensures
        heard_in(cluster.push(a), rx) <==> (heard_in(cluster, rx) || a.rx == rx),
{
    let all = cluster.push(a);
    if heard_in(cluster, rx) {
        let i = choose|i: int| 0 <= i < cluster.len() && (#[trigger] cluster[i]).rx == rx;
        assert(all[i].rx == rx);
    }
    assert(all[cluster.len() as int] == a);
    if heard_in(all, rx) {
        let i = choose|i: int| 0 <= i < all.len() && (#[trigger] all[i]).rx == rx;
        if i < cluster.len() {
            assert(cluster[i].rx == rx);
        }
    }
}

proof fn lemma_sightings<M>(s: StateView<M>, cluster: Seq<Arrival>)
    ensures
        s.sightings(cluster).len() <= cluster.len(),
        forall|i: int|
            0 <= i < s.sightings(cluster).len() ==> s.trusted((#[trigger] s.sightings(cluster)[i]).rx)
                && heard_in(cluster, s.sightings(cluster)[i].rx),
        forall|i: int, j: int|
            0 <= i < j < s.sightings(cluster).len() ==> s.sightings(cluster)[i].rx != s.sightings(
                cluster,
            )[j].rx,
    decreases cluster.len(),
{
    if cluster.len() > 0 {
        let rest = cluster.drop_last();
        lemma_sightings(s, rest);
        assert(rest.push(cluster.last()) =~= cluster);
        assert forall|rx: usize| heard_in(rest, rx) implies #[trigger] heard_in(cluster, rx) by {
            lemma_heard_push(rest, cluster.last(), rx);
        }
        lemma_heard_push(rest, cluster.last(), cluster.last().rx);
        let head = s.sightings(rest);
        let all = s.sightings(cluster);
        assert forall|i: int| 0 <= i < all.len() implies s.trusted((#[trigger] all[i]).rx)
            && heard_in(cluster, all[i].rx) by {
            if i < head.len() {
                assert(all[i] == head[i]);
            }
        }
        assert forall|i: int, j: int| 0 <= i < j < all.len() implies all[i].rx != all[j].rx by {
            assert(all[i] == head[i]);
            if j < head.len() {
                assert(all[j] == head[j]);
            } else {
                assert(heard_in(rest, head[i].rx));
            }
        }
    }
}

proof fn lemma_bystanders<M>(s: StateView<M>, cluster: Seq<Arrival>)
    ensures
        forall|i: int|
            0 <= i < s.bystanders(cluster).len() ==> s.sidelined(
                (#[trigger] s.bystanders(cluster)[i]).rx,
            ) && heard_in(cluster, s.bystanders(cluster)[i].rx),
        forall|rx: usize|
            s.sidelined(rx) && #[trigger] heard_in(cluster, rx) ==> heard_in(
                s.bystanders(cluster),
                rx,
            ),
        one_each(s.bystanders(cluster)),
    decreases cluster.len(),
{
    if cluster.len() > 0 {
        let rest = cluster.drop_last();
        lemma_bystanders(s, rest);
        assert(rest.push(cluster.last()) =~= cluster);
        assert forall|rx: usize| heard_in(rest, rx) implies #[trigger] heard_in(cluster, rx) by {
            lemma_heard_push(rest, cluster.last(), rx);
        }
        lemma_heard_push(rest, cluster.last(), cluster.last().rx);
        let head = s.bystanders(rest);
        let all = s.bystanders(cluster);
        assert forall|rx: usize| s.sidelined(rx) && #[trigger] heard_in(cluster, rx) implies heard_in(
            all,
            rx,
        ) by {
            lemma_heard_push(rest, cluster.last(), rx);
            if all != head {
                lemma_heard_push(head, s.unbiased(cluster.last()), rx);
            }
        }
        assert forall|i: int| 0 <= i < all.len() implies s.sidelined((#[trigger] all[i]).rx)
            && heard_in(cluster, all[i].rx) by {
            if i < head.len() {
                assert(all[i] == head[i]);
            }
        }
        assert forall|i: int, j: int| 0 <= i < j < all.len() implies all[i].rx != all[j].rx by {
            assert(all[i] == head[i]);
            if j < head.len() {
                assert(all[j] == head[j]);
            } else {
                assert(heard_in(rest, head[i].rx));
            }
        }
    }
}

fn find_least_at(obs: &Vec<Arrival>) -> (r: i64)
    requires
        obs@.len() > 0,
    ensures
        r == least_at(obs@),
{
    let mut least: i64 = obs[0].at;
    let mut i: usize = 1;
    assert(obs@.take(1).last() == obs@[0]);
    while i < obs.len()
        invariant
            1 <= i <= obs@.len(),
            least == least_at(obs@.take(i as int)),
        decreases obs@.len() - i,
    {
        let at: i64 = obs[i].at;
        proof {
            let next = obs@.take(i + 1);
            assert(next.drop_last() =~= obs@.take(i as int));
            assert(next.last() == obs@[i as int]);
        }
        if at < least {
            least = at;
        }
        i = i + 1;
    }
    assert(obs@.take(i as int) =~= obs@);
    least
}

fn find_least_t(obs: &Vec<Arrival>) -> (r: i128)
    requires
        obs@.len() > 0,
    ensures
        r == least_t(obs@),
{
    let mut least: i128 = obs[0].t_fs;
    let mut i: usize = 1;
    assert(obs@.take(1).last() == obs@[0]);
    while i < obs.len()
        invariant
            1 <= i <= obs@.len(),
            least == least_t(obs@.take(i as int)),
        decreases obs@.len() - i,
    {
        let t: i128 = obs[i].t_fs;
        proof {
            let next = obs@.take(i + 1);
            assert(next.drop_last() =~= obs@.take(i as int));
            assert(next.last() == obs@[i as int]);
        }
        if t < least {
            least = t;
        }
        i = i + 1;
    }
    assert(obs@.take(i as int) =~= obs@);
    least
}

fn find_rank(s: &Vec<Arrival>, i: usize) -> (r: usize)
    requires
        i < s@.len(),
    ensures
        r == rank(s@, i as int, s@.len()),
{
    let mut n: usize = 0;
    let mut j: usize = 0;
    while j < s.len()
        invariant
            i < s@.len(),
            j <= s@.len(),
            n <= j,
            n == rank(s@, i as int, j as nat),
        decreases s@.len() - j,
    {
        if s[j].sigma_fs < s[i].sigma_fs || (s[j].sigma_fs == s[i].sigma_fs && j < i) {
            n = n + 1;
        }
        j = j + 1;
    }
    n
}

/// Keeps the most precise observations.
fn keep_precise(s: Vec<Arrival>) -> (r: Vec<Arrival>)
    ensures
        r@ == precise(s@),
{
    if s.len() <= SOLVE_CAP {
        return s;
    }
    let mut out: Vec<Arrival> = Vec::new();
    let mut i: usize = 0;
    while i < s.len()
        invariant
            i <= s@.len(),
            out@ == chosen(s@, i as nat),
        decreases s@.len() - i,
    {
        if find_rank(&s, i) < SOLVE_CAP {
            out.push(s[i]);
        }
        i = i + 1;
    }
    out
}

proof fn lemma_chosen(s: Seq<Arrival>, n: nat)
    requires
        n <= s.len(),
    ensures
        chosen(s, n).len() <= n,
        forall|i: int|
            0 <= i < chosen(s, n).len() ==> s.take(n as int).contains(#[trigger] chosen(s, n)[i]),
    decreases n,
{
    if n > 0 {
        lemma_chosen(s, (n - 1) as nat);
        let head = chosen(s, (n - 1) as nat);
        let from = s.take(n as int);
        assert forall|i: int| 0 <= i < chosen(s, n).len() implies from.contains(
            #[trigger] chosen(s, n)[i],
        ) by {
            if i < head.len() {
                assert(chosen(s, n)[i] == head[i]);
                let part = s.take(n - 1);
                assert(part.contains(head[i]));
                let j = choose|j: int| 0 <= j < part.len() && part[j] == head[i];
                assert(from[j] == head[i]);
            } else {
                assert(from[n - 1] == chosen(s, n)[i]);
            }
        }
    }
}

/// No receiver has two of the observations.
pub open spec fn one_each(s: Seq<Arrival>) -> bool {
    forall|i: int, j: int| 0 <= i < j < s.len() ==> s[i].rx != s[j].rx
}

proof fn lemma_chosen_one_each(s: Seq<Arrival>, n: nat)
    requires
        n <= s.len(),
        one_each(s),
    ensures
        one_each(chosen(s, n)),
    decreases n,
{
    if n > 0 {
        lemma_chosen_one_each(s, (n - 1) as nat);
        lemma_chosen(s, (n - 1) as nat);
        let head = chosen(s, (n - 1) as nat);
        let all = chosen(s, n);
        assert forall|i: int, j: int| 0 <= i < j < all.len() implies all[i].rx != all[j].rx by {
            assert(all[i] == head[i]);
            if j < head.len() {
                assert(all[j] == head[j]);
            } else {
                let part = s.take(n - 1);
                assert(part.contains(head[i]));
                let k = choose|k: int| 0 <= k < part.len() && part[k] == head[i];
                assert(s[k].rx != s[n - 1].rx);
            }
        }
    }
}

/// A solve gets one arrival of each receiver at most, and only of receivers
/// that are connected and trusted.
pub proof fn law_one_trusted_arrival_each<M>(s: StateView<M>, cluster: Seq<Arrival>, i: int)
    ensures
        one_each(precise(s.sightings(cluster))),
        0 <= i < precise(s.sightings(cluster)).len() ==> s.trusted(
            precise(s.sightings(cluster))[i].rx,
        ),
{
    lemma_sightings(s, cluster);
    lemma_chosen_one_each(s.sightings(cluster), s.sightings(cluster).len());
    lemma_precise(s, cluster);
}

/// A solve is compared with one arrival of each receiver in the cluster that
/// is left out of it, and with no receiver that takes part.
pub proof fn law_bystanders_take_no_part<M>(
    s: StateView<M>,
    cluster: Seq<Arrival>,
    rx: usize,
    i: int,
    j: int,
)
    ensures
        s.sidelined(rx) && heard_in(cluster, rx) ==> heard_in(s.bystanders(cluster), rx),
        one_each(s.bystanders(cluster)),
        0 <= i < s.bystanders(cluster).len() ==> s.sidelined(s.bystanders(cluster)[i].rx),
        0 <= i < s.bystanders(cluster).len() && 0 <= j < precise(s.sightings(cluster)).len()
            ==> s.bystanders(cluster)[i].rx != precise(s.sightings(cluster))[j].rx,
{
    lemma_bystanders(s, cluster);
    lemma_precise(s, cluster);
}

proof fn lemma_precise<M>(s: StateView<M>, cluster: Seq<Arrival>)
    ensures
        forall|i: int|
            0 <= i < precise(s.sightings(cluster)).len() ==> s.trusted(
                (#[trigger] precise(s.sightings(cluster))[i]).rx,
            ),
{
    let obs = s.sightings(cluster);
    lemma_sightings(s, cluster);
    lemma_chosen(obs, obs.len());
    assert forall|i: int| 0 <= i < precise(obs).len() implies s.trusted(
        (#[trigger] precise(obs)[i]).rx,
    ) by {
        if obs.len() > SOLVE_CAP {
            assert(obs.take(obs.len() as int) =~= obs);
            assert(obs.contains(chosen(obs, obs.len())[i]));
            let j = choose|j: int| 0 <= j < obs.len() && obs[j] == precise(obs)[i];
            assert(s.trusted(obs[j].rx));
        }
    }
}

/// Looking at a cluster keeps the state orderly.
pub proof fn lemma_cluster_orderly<M>(
    s: StateView<M>,
    icao: u32,
    reference: usize,
    cluster: Seq<Arrival>,
    now: i64,
)
    requires
        s.orderly(),
    ensures
        s.after_cluster(icao, reference, cluster, now).orderly(),
        same_seats(s, s.after_cluster(icao, reference, cluster, now)),
{
    let t = s.after_cluster(icao, reference, cluster, now);
    assert forall|c: u32| #[trigger] t.tracks.contains_key(c) implies t.tracks[c].speed_rejects
        < MAX_SPEED_REJECTS by {
        if s.tracks.contains_key(c) {
        }
    }
    lemma_reports_orderly(s, t);
}

impl<M> State<M> {
    /// The observations in a cluster, and the arrivals that are left out.
    fn observe(&self, cluster: &Vec<Arrival>) -> (r: (Vec<Arrival>, Vec<Arrival>))
        requires
            forall|i: int| 0 <= i < cluster@.len() ==> (#[trigger] cluster@[i]).rx < self@.slots.len(),
        ensures
            r.0@ == self@.sightings(cluster@),
            r.1@ == self@.bystanders(cluster@),
    {
        let mut obs: Vec<Arrival> = Vec::new();
        let mut aside: Vec<Arrival> = Vec::new();
        let mut heard: Vec<usize> = Vec::new();
        let mut i: usize = 0;
        while i < cluster.len()
            invariant
                i <= cluster@.len(),
                forall|k: int|
                    0 <= k < cluster@.len() ==> (#[trigger] cluster@[k]).rx < self@.slots.len(),
                self@.slots == slot_views(self.slots@),
                obs@ == self@.sightings(cluster@.take(i as int)),
                aside@ == self@.bystanders(cluster@.take(i as int)),
                forall|rx: usize| #[trigger]
                    heard@.contains(rx) <==> heard_in(cluster@.take(i as int), rx),
            decreases cluster@.len() - i,
        {
            let a: Arrival = cluster[i];
            let ghost head = cluster@.take(i as int);
            let ghost next = cluster@.take(i + 1);
            let ghost heard_before = heard@;
            proof {
                assert(next.drop_last() =~= head);
                assert(next.last() == a);
                assert(next =~= head.push(a));
                assert(self@.slots[a.rx as int] == self.slots@[a.rx as int]@);
            }
            let new: bool = !lists_slot(&heard, a.rx);
            if new {
                heard.push(a.rx);
                if self.slots[a.rx].alive {
                    let bias = self.slots[a.rx].bias;
                    let t = Arrival {
                        rx: a.rx,
                        t_fs: later(a.t_fs, bias.in_fs()),
                        sigma_fs: a.sigma_fs,
                        at: a.at,
                    };
                    if bias.is_quarantined() {
                        aside.push(t);
                    } else {
                        obs.push(t);
                    }
                }
            }
            assert forall|rx: usize| #[trigger] heard@.contains(rx) <==> heard_in(next, rx) by {
                lemma_heard_push(head, a, rx);
                assert(heard_before.contains(rx) <==> heard_in(head, rx));
                if new {
                    assert(heard@ == heard_before.push(a.rx));
                    if heard_before.contains(rx) {
                        let k = choose|k: int| 0 <= k < heard_before.len() && heard_before[k] == rx;
                        assert(heard@[k] == rx);
                    }
                    assert(heard@[heard_before.len() as int] == a.rx);
                }
            }
            i = i + 1;
        }
        assert(cluster@.take(i as int) =~= cluster@);
        (obs, aside)
    }

    /// The offset of the output clock from the clock of `reference`, where one
    /// was seen.
    pub fn offset_of(&self, reference: usize) -> (r: Option<i128>)
        ensures
            match r {
                Some(o) => self@.stamp_offset.contains_key(reference) && o
                    == self@.stamp_offset[reference],
                None => !self@.stamp_offset.contains_key(reference),
            },
    {
        match self.stamp_offset.get(&reference) {
            Some(o) => Some(*o),
            None => None,
        }
    }

    fn track_of(&self, icao: u32) -> (r: Track)
        ensures
            r == self@.track(icao),
    {
        match self.tracks.get(&icao) {
            Some(t) => *t,
            None => Track::new(),
        }
    }

    /// Follows the offset of the output clock from the clock of `reference`, and
    /// gives the stamp of `obs`.
    fn follow_offset(&mut self, reference: usize, obs: &Vec<Arrival>) -> (r: i128)
        requires
            obs@.len() > 0,
        ensures
            r == old(self)@.stamp(reference, obs@),
            final(self)@ == (StateView {
                stamp_offset: old(self)@.stamp_offset.insert(
                    reference,
                    old(self)@.offset_after(reference, obs@),
                ),
                ..old(self)@
            }),
    {
        let first: i128 = find_least_t(obs);
        let delta: i128 = lag(in_fs(find_least_at(obs)), first);
        let off: i128 = match self.stamp_offset.get(&reference) {
            None => delta,
            Some(o) => if delta < *o {
                delta
            } else {
                later(*o, round_off(lag(delta, *o), 1000))
            },
        };
        self.stamp_offset.insert(reference, off);
        later(first, off)
    }

    /// The names of the receivers of some observations.
    fn names_of(&self, obs: &Vec<Arrival>) -> (r: Vec<String>)
        requires
            self@.orderly(),
            forall|i: int| 0 <= i < obs@.len() ==> (#[trigger] obs@[i]).rx < self@.slots.len(),
        ensures
            texts(r@) == self@.names(obs@),
    {
        let mut out: Vec<String> = Vec::new();
        let mut i: usize = 0;
        while i < obs.len()
            invariant
                i <= obs@.len(),
                self@.orderly(),
                self@.receivers == self.receivers@,
                forall|k: int| 0 <= k < obs@.len() ==> (#[trigger] obs@[k]).rx < self@.slots.len(),
                texts(out@) == self@.names(obs@).take(i as int),
            decreases obs@.len() - i,
        {
            let ghost before = out@;
            out.push(self.receivers[obs[i].rx].user.clone());
            assert(texts(out@) =~= texts(before).push(self@.names(obs@)[i as int]));
            i = i + 1;
            assert(texts(out@) =~= self@.names(obs@).take(i as int));
        }
        assert(self@.names(obs@).take(i as int) =~= self@.names(obs@));
        out
    }

    /// The positions of the receivers of some observations.
    fn homes_of(&self, obs: &Vec<Arrival>) -> (r: Vec<Geodetic>)
        requires
            self@.orderly(),
            forall|i: int| 0 <= i < obs@.len() ==> (#[trigger] obs@[i]).rx < self@.slots.len(),
        ensures
            r@ == self@.homes(obs@),
    {
        let mut out: Vec<Geodetic> = Vec::new();
        let mut i: usize = 0;
        while i < obs.len()
            invariant
                i <= obs@.len(),
                self@.orderly(),
                self@.receivers == self.receivers@,
                forall|k: int| 0 <= k < obs@.len() ==> (#[trigger] obs@[k]).rx < self@.slots.len(),
                out@ == self@.homes(obs@).take(i as int),
            decreases obs@.len() - i,
        {
            out.push(self.receivers[obs[i].rx].geo);
            i = i + 1;
            assert(out@ =~= self@.homes(obs@).take(i as int));
        }
        assert(self@.homes(obs@).take(i as int) =~= self@.homes(obs@));
        out
    }

    fn claim_of(&self, icao: u32, now: i64) -> (r: Option<Geodetic>)
        ensures
            r == self@.claim(icao, now),
    {
        match self.adsb_pos.get(&icao) {
            Some(c) => {
                let d: i128 = now as i128 - c.at as i128;
                if -CLAIM_NS < d && d < CLAIM_NS {
                    Some(c.pos)
                } else {
                    None
                }
            },
            None => None,
        }
    }

    /// A cluster of arrivals of `icao` on the clock of `reference`: the solve that
    /// it calls for, where it is worth one at `now`.
    pub fn open_cluster(
        &mut self,
        icao: u32,
        df17: bool,
        reference: usize,
        cluster: &Vec<Arrival>,
        now: i64,
    ) -> (r: Option<Attempt>)
        requires
            old(self)@.orderly(),
            forall|i: int|
                0 <= i < cluster@.len() ==> (#[trigger] cluster@[i]).rx < old(self)@.slots.len(),
        ensures
            final(self)@ == old(self)@.after_cluster(icao, reference, cluster@, now),
            final(self)@.orderly(),
            match r {
                Some(att) => {
                    &&& old(self)@.sightings(cluster@).len() >= MIN_RECEIVERS
                    &&& old(self)@.goes_ahead(
                        icao,
                        precise(old(self)@.sightings(cluster@)),
                        now,
                    )
                    &&& old(self)@.calls_for(icao, df17, reference, cluster@, now, att)
                    &&& final(self)@.admits(att)
                },
                None => old(self)@.sightings(cluster@).len() < MIN_RECEIVERS || !old(
                    self,
                )@.goes_ahead(icao, precise(old(self)@.sightings(cluster@)), now),
            },
            old(self)@.opens(icao, df17, reference, cluster@, now, r),
    {
        let ghost before = self@;
        proof {
            lemma_cluster_orderly(before, icao, reference, cluster@, now);
            lemma_precise(before, cluster@);
            lemma_bystanders(before, cluster@);
        }
        let (obs, aside) = self.observe(cluster);
        if obs.len() < MIN_RECEIVERS {
            return None;
        }
        let ghost seen = obs@;
        let stamp_fs: i128 = self.follow_offset(reference, &obs);
        let kept = keep_precise(obs);
        let track: Track = self.track_of(icao);
        assert(track == before.track(icao));
        self.tracks.insert(icao, track);
        if within(now, track.last_attempt, BACKOFF_NS) {
            return None;
        }
        if kept.len() == MIN_RECEIVERS && within(now, track.last_time, STARVED_NS) {
            self.stats_rejected = self.stats_rejected.wrapping_add(1);
            return None;
        }
        let alt_ft: i32 = match self.alts_ft.get(&icao) {
            Some(a) => *a,
            None => return None,
        };
        self.tracks.insert(
            icao,
            Track {
                last_pos: track.last_pos,
                last_time: track.last_time,
                last_attempt: now,
                speed_rejects: track.speed_rejects,
            },
        );
        proof {
            let after = before.after_cluster(icao, reference, cluster@, now);
            assert(self.tracks@ =~= after.tracks);
            assert(self@ =~= after);
            assert(self@.receivers == before.receivers);
            assert(self@.names(kept@) =~= before.names(kept@));
            assert(self@.homes(kept@) =~= before.homes(kept@));
            assert forall|i: int| 0 <= i < kept@.len() implies (#[trigger] kept@[i]).rx
                < self@.slots.len() by {
                assert(before.trusted(precise(seen)[i].rx));
            }
        }
        let users = self.names_of(&kept);
        let warm: bool = track.last_pos.is_some() && within(now, track.last_time, WARM_NS);
        let start: Start = match track.last_pos {
            Some(p) => if warm {
                Start::Warm(p)
            } else {
                Start::Centroid(self.homes_of(&kept))
            },
            None => Start::Centroid(self.homes_of(&kept)),
        };
        let claimed: Option<Geodetic> = if df17 {
            self.claim_of(icao, now)
        } else {
            None
        };
        Some(
            Attempt {
                df17,
                now,
                obs: kept,
                aside,
                sighting: Sighting { icao, stamp_fs, alt_ft, users },
                start,
                last_pos: track.last_pos,
                claimed,
            },
        )
    }
}

} // verus!
