//! What the solver found, judged: refused, scored or published.

use vstd::prelude::*;
use crate::bias::RxBias;
use crate::cluster::Arrival;
use crate::geo::Geodetic;
use crate::output::{OutRow, Published};
#[allow(unused_imports)]
use crate::lines::{csv_text, result_text, sbs_text, truth_text};
use crate::state::publish::Attempt;
use crate::state::{AcLog, Fix, State, Track, MAX_SPEED_REJECTS};
#[allow(unused_imports)]
use crate::state::intake::{lemma_fair, lemma_reports_orderly};
#[allow(unused_imports)]
use crate::state::slots::same_seats;
#[allow(unused_imports)]
use crate::state::{bumped, slot_views, AcView, SlotView, StateView};
#[allow(unused_imports)]
use crate::text::texts;

verus! {

/// Estimated error above which a fix is refused: 10 km.
pub const MAX_ERR_UM: u64 = 10_000_000_000;

/// Estimated error below which a fix teaches receiver biases: 500 m.
pub const LEARN_ERR_UM: u64 = 500_000_000;

/// Receivers that a fix needs to teach biases.
pub const LEARN_MIN: usize = 5;

/// What the solver found. Lengths are micrometres.
pub struct Solution {
    pub pos: Geodetic,
    /// Estimated error.
    pub err_um: u64,
    /// Predicted less measured arrival of each observation, where the solve used
    /// them all.
    pub residuals_fs: Vec<i128>,
    /// Predicted less measured arrival at each receiver that was left out.
    pub aside_fs: Vec<i128>,
    /// Distance from the last accepted fix, where there is one.
    pub moved_um: u64,
    /// Latitude and longitude with five decimals.
    pub lat: String,
    pub lon: String,
    /// Estimated error with one decimal.
    pub err: String,
    /// Distance from the claimed position with one decimal, where there is one.
    pub off: String,
}

/// What becomes of a solve.
#[derive(Clone, Copy, PartialEq, Eq, Debug, Structural)]
pub enum Judgement {
    /// The solver found nothing.
    Unsolved,
    /// The estimated error is over the ceiling.
    Imprecise,
    /// Too little silence since the last fix for a fix of this error.
    TooSoon,
    /// It implies a speed that no aircraft flies.
    TooFast,
    /// A DF17 fix: scored against the claimed position and kept in.
    Truth,
    /// A fix to publish.
    Publish,
}

/// A fix of this error is too soon: `elapsed / 20 s` is less than
/// `error / 1500 m`.
pub open spec fn too_soon(elapsed_ns: int, err_um: int) -> bool {
    3 * elapsed_ns < 40 * err_um
}

/// More than 400 m/s against a fix between 0.05 s and 30 s old.
pub open spec fn too_fast(elapsed_ns: int, moved_um: int) -> bool {
    50_000_000 < elapsed_ns < 30_000_000_000 && 1000 * moved_um > 400 * elapsed_ns
}

/// What becomes of a solve of an aircraft with publication state `track`.
pub open spec fn judged(track: Track, now: i64, df17: bool, sol: Option<Solution>) -> Judgement {
    match sol {
        None => Judgement::Unsolved,
        Some(s) => {
            let elapsed = now - track.last_time;
            if s.err_um > MAX_ERR_UM {
                Judgement::Imprecise
            } else if track.last_pos is Some && too_soon(elapsed, s.err_um as int) {
                Judgement::TooSoon
            } else if track.last_pos is Some && too_fast(elapsed, s.moved_um as int) {
                Judgement::TooFast
            } else if df17 {
                Judgement::Truth
            } else {
                Judgement::Publish
            }
        },
    }
}

/// The publication state after one more refusal for speed. Five in a row mean
/// that the track itself is wrong, and start it over.
pub open spec fn doubted(track: Track) -> Track {
    if track.speed_rejects + 1 >= MAX_SPEED_REJECTS {
        Track { last_pos: None, speed_rejects: 0, ..track }
    } else {
        Track { speed_rejects: (track.speed_rejects + 1) as u32, ..track }
    }
}

/// The solve is good enough to learn from: it used every observation, it was
/// well observed, and its error is small.
pub open spec fn teaches(obs: Seq<Arrival>, sol: Solution) -> bool {
    sol.residuals_fs@.len() == obs.len() && obs.len() >= LEARN_MIN && sol.err_um < LEARN_ERR_UM
}

/// The slots once the first `n` observations have taught their receivers.
pub open spec fn taught(
    slots: Seq<SlotView>,
    obs: Seq<Arrival>,
    residuals: Seq<i128>,
    n: nat,
    scatter: bool,
) -> Seq<SlotView>
    decreases n,
{
    if n == 0 {
        slots
    } else {
        let s = taught(slots, obs, residuals, (n - 1) as nat, scatter);
        let rx = obs[n - 1].rx as int;
        let r = residuals[n - 1];
        s.update(
            rx,
            SlotView {
                bias: if scatter {
                    s[rx].bias.trained(r)
                } else {
                    s[rx].bias.nudged(r)
                },
                ..s[rx]
            },
        )
    }
}

proof fn lemma_taught(
    slots: Seq<SlotView>,
    obs: Seq<Arrival>,
    residuals: Seq<i128>,
    n: nat,
    scatter: bool,
)
    requires
        n <= obs.len(),
        forall|i: int| 0 <= i < obs.len() ==> (#[trigger] obs[i]).rx < slots.len(),
    ensures
        taught(slots, obs, residuals, n, scatter).len() == slots.len(),
        forall|i: int|
            0 <= i < slots.len() ==> (#[trigger] taught(slots, obs, residuals, n, scatter)[i]).alive
                == slots[i].alive && taught(slots, obs, residuals, n, scatter)[i].gen
                == slots[i].gen && (slots[i].is_fair() ==> taught(
                slots,
                obs,
                residuals,
                n,
                scatter,
            )[i].is_fair()),
    decreases n,
{
    if n > 0 {
        lemma_taught(slots, obs, residuals, (n - 1) as nat, scatter);
    }
}

impl<M> StateView<M> {
    /// The slots once a solve has taught what it can: those who took part, and
    /// those who were left out and are compared with it.
    pub open spec fn wiser(self, att: Attempt, sol: Solution, scatter: bool) -> Seq<SlotView> {
        if teaches(att.obs@, sol) {
            let s = taught(self.slots, att.obs@, sol.residuals_fs@, att.obs@.len(), scatter);
            if sol.aside_fs@.len() == att.aside@.len() {
                taught(s, att.aside@, sol.aside_fs@, att.aside@.len(), scatter)
            } else {
                s
            }
        } else {
            self.slots
        }
    }

    /// What becomes of an attempted solve.
    pub open spec fn judgement(self, att: Attempt, sol: Option<Solution>) -> Judgement {
        judged(self.track(att.sighting.icao), att.now, att.df17, sol)
    }

    /// The state once an attempted solve has been judged.
    pub open spec fn concluded(self, att: Attempt, sol: Option<Solution>) -> StateView<M> {
        let icao = att.sighting.icao;
        let track = self.track(icao);
        let a = self.ac(icao);
        match self.judgement(att, sol) {
            Judgement::Unsolved | Judgement::Imprecise | Judgement::TooSoon => StateView {
                rejected: bumped(self.rejected),
                ..self
            },
            Judgement::TooFast => StateView {
                rejected: bumped(self.rejected),
                tracks: self.tracks.insert(icao, doubted(track)),
                ..self
            },
            Judgement::Truth => StateView { slots: self.wiser(att, sol->0, false), ..self },
            Judgement::Publish => StateView {
                solved: bumped(self.solved),
                slots: self.wiser(att, sol->0, true),
                tracks: self.tracks.insert(
                    icao,
                    Track {
                        last_pos: Some(sol->0.pos),
                        last_time: att.now,
                        speed_rejects: 0,
                        ..track
                    },
                ),
                ac_log: self.ac_log.insert(
                    icao,
                    AcView {
                        results: bumped(a.results),
                        prev_fix: a.last_fix,
                        last_fix: Some(Fix { at: att.now, pos: sol->0.pos }),
                        ..a
                    },
                ),
                ..self
            },
        }
    }
}

proof fn lemma_wiser<M>(s: StateView<M>, att: Attempt, sol: Solution, scatter: bool)
    requires
        s.admits(att),
    ensures
        s.wiser(att, sol, scatter).len() == s.slots.len(),
        forall|i: int|
            0 <= i < s.slots.len() ==> (#[trigger] s.wiser(att, sol, scatter)[i]).alive
                == s.slots[i].alive && s.wiser(att, sol, scatter)[i].gen == s.slots[i].gen && (
            s.slots[i].is_fair() ==> s.wiser(att, sol, scatter)[i].is_fair()),
{
    let mid = taught(s.slots, att.obs@, sol.residuals_fs@, att.obs@.len(), scatter);
    lemma_taught(s.slots, att.obs@, sol.residuals_fs@, att.obs@.len(), scatter);
    lemma_taught(mid, att.aside@, sol.aside_fs@, att.aside@.len(), scatter);
    assert forall|i: int| 0 <= i < s.slots.len() implies (#[trigger] s.wiser(
        att,
        sol,
        scatter,
    )[i]).alive == s.slots[i].alive && s.wiser(att, sol, scatter)[i].gen == s.slots[i].gen && (
    s.slots[i].is_fair() ==> s.wiser(att, sol, scatter)[i].is_fair()) by {
        assert(mid[i].alive == s.slots[i].alive);
    }
}

/// A judged solve keeps the state orderly.
pub proof fn lemma_concluded_orderly<M>(s: StateView<M>, att: Attempt, sol: Option<Solution>)
    requires
        s.orderly(),
        s.admits(att),
    ensures
        s.concluded(att, sol).orderly(),
        same_seats(s, s.concluded(att, sol)),
{
    let t = s.concluded(att, sol);
    let icao = att.sighting.icao;
    if let Some(f) = sol {
        lemma_wiser(s, att, f, true);
        lemma_wiser(s, att, f, false);
    }
    assert forall|c: u32| #[trigger] t.tracks.contains_key(c) implies t.tracks[c].speed_rejects
        < MAX_SPEED_REJECTS by {
        if s.tracks.contains_key(c) {
        }
    }
    assert forall|i: int| 0 <= i < t.slots.len() implies (#[trigger] t.slots[i]).is_fair() by {
        assert(s.slots[i].is_fair());
    }
    lemma_fair(s, icao);
    lemma_reports_orderly(s, t);
}

/// Judges a solve.
fn judge(track: &Track, now: i64, df17: bool, sol: &Option<Solution>) -> (r: Judgement)
    ensures
        r == judged(*track, now, df17, *sol),
{
    match sol {
        None => Judgement::Unsolved,
        Some(s) => {
            if s.err_um > MAX_ERR_UM {
                return Judgement::Imprecise;
            }
            let elapsed: i128 = now as i128 - track.last_time as i128;
            let err: i128 = s.err_um as i128;
            let moved: i128 = s.moved_um as i128;
            if track.last_pos.is_some() {
                if 3 * elapsed < 40 * err {
                    return Judgement::TooSoon;
                }
                if 50_000_000 < elapsed && elapsed < 30_000_000_000 && 1000 * moved > 400 * elapsed {
                    return Judgement::TooFast;
                }
            }
            if df17 {
                Judgement::Truth
            } else {
                Judgement::Publish
            }
        },
    }
}

/// What leaves the shard after a solve.
pub enum Verdict {
    Nothing,
    /// A row of the self-truth file.
    SelfTruth(String),
    Fix(OutRow),
}

/// `row` is what a published fix leaves as.
pub open spec fn is_row(
    shard: usize,
    att: Attempt,
    sol: Solution,
    recipients: Seq<u64>,
    row: OutRow,
) -> bool {
    let g = att.sighting;
    let (t, alt, users) = (g.stamp_fs as int, g.alt_ft as int, texts(g.users@));
    &&& row.shard == shard
    &&& row.lat == sol.pos.lat_deg
    &&& row.lon == sol.pos.lon_deg
    &&& row.icao == g.icao
    &&& row.stamp_fs == g.stamp_fs
    &&& row.csv_line@ == csv_text(t, g.icao, alt, users, sol.lat@, sol.lon@, sol.err@)
    &&& row.filtered_line is None
    &&& row.published.sbs_line@ == sbs_text(t, g.icao, alt, sol.lat@, sol.lon@)
    &&& row.published.result_line@ == result_text(
        t,
        g.icao,
        alt,
        users.len(),
        sol.lat@,
        sol.lon@,
    )
    &&& row.published.recipients@ == recipients
}

/// `v` is what leaves the shard after a solve that was judged `j`.
pub open spec fn is_verdict(
    j: Judgement,
    shard: usize,
    att: Attempt,
    sol: Option<Solution>,
    recipients: Seq<u64>,
    v: Verdict,
) -> bool {
    let g = att.sighting;
    match j {
        Judgement::Truth => match (att.claimed, v) {
            (Some(_), Verdict::SelfTruth(line)) => line@ == truth_text(
                g.stamp_fs as int,
                g.icao,
                sol->0.off@,
                sol->0.err@,
                g.users@.len(),
            ),
            (None, Verdict::Nothing) => true,
            _ => false,
        },
        Judgement::Publish => v matches Verdict::Fix(row) && is_row(
            shard,
            att,
            sol->0,
            recipients,
            row,
        ),
        _ => v is Nothing,
    }
}

impl<M> State<M> {
    /// Teaches receivers from their residuals.
    fn teach(&mut self, obs: &Vec<Arrival>, residuals: &Vec<i128>, scatter: bool)
        requires
            residuals@.len() == obs@.len(),
            forall|i: int| 0 <= i < obs@.len() ==> (#[trigger] obs@[i]).rx < old(self)@.slots.len(),
        ensures
            final(self)@ == (StateView {
                slots: taught(old(self)@.slots, obs@, residuals@, obs@.len(), scatter),
                ..old(self)@
            }),
    {
        let ghost before = self@;
        let mut i: usize = 0;
        assert(self@ =~= (StateView {
            slots: taught(before.slots, obs@, residuals@, 0, scatter),
            ..before
        }));
        while i < obs.len()
            invariant
                i <= obs@.len(),
                residuals@.len() == obs@.len(),
                forall|k: int| 0 <= k < obs@.len() ==> (#[trigger] obs@[k]).rx < before.slots.len(),
                self@ == (StateView {
                    slots: taught(before.slots, obs@, residuals@, i as nat, scatter),
                    ..before
                }),
                self@.slots == slot_views(self.slots@),
            decreases obs@.len() - i,
        {
            let ghost now = self@.slots;
            proof {
                lemma_taught(before.slots, obs@, residuals@, i as nat, scatter);
            }
            let rx: usize = obs[i].rx;
            let r: i128 = residuals[i];
            assert(now[rx as int] == self.slots@[rx as int]@);
            let b: RxBias = self.slots[rx].bias;
            self.slots[rx].bias = if scatter {
                b.train(r)
            } else {
                b.nudge(r)
            };
            i = i + 1;
            proof {
                let next = taught(before.slots, obs@, residuals@, i as nat, scatter);
                assert(slot_views(self.slots@) =~= next);
                assert(self@ =~= (StateView { slots: next, ..before }));
            }
        }
    }

    /// Teaches receivers from a solve that is good enough.
    fn learn(&mut self, att: &Attempt, sol: &Solution, scatter: bool)
        requires
            old(self)@.admits(*att),
        ensures
            final(self)@ == (StateView {
                slots: old(self)@.wiser(*att, *sol, scatter),
                ..old(self)@
            }),
    {
        let ghost before = self@;
        let n: usize = att.obs.len();
        if sol.residuals_fs.len() != n || n < LEARN_MIN || sol.err_um >= LEARN_ERR_UM {
            assert(self@ =~= (StateView { slots: before.wiser(*att, *sol, scatter), ..before }));
            return;
        }
        proof {
            lemma_taught(before.slots, att.obs@, sol.residuals_fs@, att.obs@.len(), scatter);
        }
        self.teach(&att.obs, &sol.residuals_fs, scatter);
        if sol.aside_fs.len() == att.aside.len() {
            self.teach(&att.aside, &sol.aside_fs, scatter);
        }
        assert(self@ =~= (StateView { slots: before.wiser(*att, *sol, scatter), ..before }));
    }

    /// Notes an accepted fix.
    fn accept(&mut self, icao: u32, pos: Geodetic, now: i64, track: &Track)
        requires
            *track == old(self)@.track(icao),
        ensures
            final(self)@ == (StateView {
                tracks: old(self)@.tracks.insert(
                    icao,
                    Track {
                        last_pos: Some(pos),
                        last_time: now,
                        speed_rejects: 0,
                        ..old(self)@.track(icao)
                    },
                ),
                ac_log: old(self)@.ac_log.insert(
                    icao,
                    AcView {
                        results: bumped(old(self)@.ac(icao).results),
                        prev_fix: old(self)@.ac(icao).last_fix,
                        last_fix: Some(Fix { at: now, pos }),
                        ..old(self)@.ac(icao)
                    },
                ),
                ..old(self)@
            }),
    {
        let ghost before = self@;
        self.tracks.insert(
            icao,
            Track {
                last_pos: Some(pos),
                last_time: now,
                last_attempt: track.last_attempt,
                speed_rejects: 0,
            },
        );
        let mut a: AcLog = match self.ac_log.take(&icao) {
            Some(a) => a,
            None => AcLog::new(),
        };
        assert(a@ == before.ac(icao));
        a.results = a.results.wrapping_add(1);
        a.prev_fix = a.last_fix;
        a.last_fix = Some(Fix { at: now, pos });
        self.ac_log.insert(icao, a);
        assert(self.ac_log@ =~= before.ac_log.insert(icao, a@));
    }

    /// Judges an attempted solve, and says what leaves the shard. A published fix
    /// goes to `recipients`.
    pub fn conclude(
        &mut self,
        att: &Attempt,
        sol: Option<Solution>,
        recipients: &Vec<u64>,
    ) -> (r: Verdict)
        requires
            old(self)@.orderly(),
            old(self)@.admits(*att),
        ensures
            final(self)@ == old(self)@.concluded(*att, sol),
            final(self)@.orderly(),
            is_verdict(
                old(self)@.judgement(*att, sol),
                old(self)@.shard_id,
                *att,
                sol,
                recipients@,
                r,
            ),
    {
        let ghost before = self@;
        proof {
            lemma_concluded_orderly(before, *att, sol);
        }
        let icao: u32 = att.sighting.icao;
        let track: Track = match self.tracks.get(&icao) {
            Some(t) => *t,
            None => Track::new(),
        };
        assert(track == before.track(icao));
        match judge(&track, att.now, att.df17, &sol) {
            Judgement::Unsolved | Judgement::Imprecise | Judgement::TooSoon => {
                self.stats_rejected = self.stats_rejected.wrapping_add(1);
                assert(self@ =~= before.concluded(*att, sol));
                Verdict::Nothing
            },
            Judgement::TooFast => {
                self.stats_rejected = self.stats_rejected.wrapping_add(1);
                let next: Track = if track.speed_rejects >= MAX_SPEED_REJECTS - 1 {
                    Track {
                        last_pos: None,
                        last_time: track.last_time,
                        last_attempt: track.last_attempt,
                        speed_rejects: 0,
                    }
                } else {
                    Track {
                        last_pos: track.last_pos,
                        last_time: track.last_time,
                        last_attempt: track.last_attempt,
                        speed_rejects: track.speed_rejects + 1,
                    }
                };
                self.tracks.insert(icao, next);
                assert(self@ =~= before.concluded(*att, sol));
                Verdict::Nothing
            },
            Judgement::Truth => {
                let s = sol.unwrap();
                self.learn(att, &s, false);
                match att.claimed {
                    Some(_) => Verdict::SelfTruth(
                        att.sighting.truth_row(s.off.as_str(), s.err.as_str()),
                    ),
                    None => Verdict::Nothing,
                }
            },
            Judgement::Publish => {
                let s = sol.unwrap();
                self.stats_solved = self.stats_solved.wrapping_add(1);
                self.learn(att, &s, true);
                self.accept(icao, s.pos, att.now, &track);
                assert(self@ =~= before.concluded(*att, sol));
                let (lat, lon) = (s.lat.as_str(), s.lon.as_str());
                let csv_line = att.sighting.csv_row(lat, lon, s.err.as_str());
                let sbs_line = att.sighting.sbs_line(lat, lon);
                let result_line = att.sighting.result_line(lat, lon);
                let to: Vec<u64> = recipients.clone();
                assert(to@ =~= recipients@);
                Verdict::Fix(
                    OutRow {
                        shard: self.shard_id,
                        lat: s.pos.lat_deg,
                        lon: s.pos.lon_deg,
                        icao,
                        stamp_fs: att.sighting.stamp_fs,
                        csv_line,
                        filtered_line: None,
                        published: Published { sbs_line, result_line, recipients: to },
                    },
                )
            },
        }
    }
}

} // verus!
