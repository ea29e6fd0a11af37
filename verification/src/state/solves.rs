//! What a solve and its outcome owe to the arrivals that they come from.

use vstd::prelude::*;
#[allow(unused_imports)]
use crate::bias::{lemma_rounded_near, rounded, RxBias};
#[allow(unused_imports)]
use crate::clock::clip;
#[allow(unused_imports)]
use crate::cluster::Arrival;
#[allow(unused_imports)]
use crate::geo::Geodetic;
#[allow(unused_imports)]
use crate::lines::{csv_text, result_text, sbs_text, truth_text};
#[allow(unused_imports)]
use crate::state::publish::{
    ahead, chosen, heard_in, least_at, least_t, precise, rank, Attempt, Start,
};
#[allow(unused_imports)]
use crate::state::laws::{law_solve_size, lemma_taught_once, lemma_untaught};
#[allow(unused_imports)]
use crate::state::verdict::{is_verdict, judged, taught, Judgement, Solution, Verdict};
#[allow(unused_imports)]
use crate::state::{bumped, Fix, SlotView, StateView, Track};
#[allow(unused_imports)]
use crate::text::texts;

verus! {

/// A time that is far from the ends of its range: 2^125 fs are more than 10^15
/// years.
pub open spec fn is_sane(t_fs: int) -> bool {
    -0x2000_0000_0000_0000_0000_0000_0000_0000 <= t_fs
        <= 0x2000_0000_0000_0000_0000_0000_0000_0000
}

/// The first moments are minima: at or before every arrival, and those of some
/// arrival.
pub proof fn law_first_moments_are_first(obs: Seq<Arrival>, i: int)
    requires
        0 <= i < obs.len(),
    ensures
        least_at(obs) <= obs[i].at,
        least_t(obs) <= obs[i].t_fs,
        exists|j: int| 0 <= j < obs.len() && (#[trigger] obs[j]).at == least_at(obs),
        exists|j: int| 0 <= j < obs.len() && (#[trigger] obs[j]).t_fs == least_t(obs),
    decreases obs.len(),
{
    let n = obs.len() - 1;
    if n > 0 {
        let rest = obs.drop_last();
        law_first_moments_are_first(rest, if i < n { i } else { 0 });
        let j = choose|j: int| 0 <= j < rest.len() && (#[trigger] rest[j]).at == least_at(rest);
        let k = choose|k: int| 0 <= k < rest.len() && (#[trigger] rest[k]).t_fs == least_t(rest);
        assert(obs[j] == rest[j] && obs[k] == rest[k]);
        assert(obs[n] == obs.last());
    } else {
        assert(obs[0] == obs.last());
    }
}

/// The stamp of a fix is at or before the moment at which every one of its
/// observations came in. On a reference that is new it is the first of those
/// moments; on a known one it is where the offset so far puts the first arrival,
/// moved at once to a faster path, and by one part in a thousand to a slower
/// one. The offset behind it is what is remembered.
pub proof fn law_stamps_follow_the_first_arrival<M>(
    s: StateView<M>,
    reference: usize,
    obs: Seq<Arrival>,
    j: int,
    k: int,
)
    requires
        0 <= j < obs.len(),
        0 <= k < obs.len(),
        forall|i: int| 0 <= i < obs.len() ==> obs[j].at <= (#[trigger] obs[i]).at,
        forall|i: int| 0 <= i < obs.len() ==> obs[k].t_fs <= (#[trigger] obs[i]).t_fs,
        is_sane(obs[k].t_fs as int),
        s.stamp_offset.contains_key(reference) ==> is_sane(s.stamp_offset[reference] as int),
    ensures
        ({
            let stamp = s.stamp(reference, obs);
            let new = obs[j].at * 1_000_000;
            let old_stamp = obs[k].t_fs + s.stamp_offset[reference];
            &&& forall|i: int| 0 <= i < obs.len() ==> stamp <= (#[trigger] obs[i]).at * 1_000_000
            &&& !s.stamp_offset.contains_key(reference) ==> stamp == new
            &&& s.stamp_offset.contains_key(reference) && new < old_stamp ==> stamp == new
            &&& s.stamp_offset.contains_key(reference) && new >= old_stamp ==> old_stamp <= stamp
                && -500 <= 1000 * (stamp - old_stamp) - (new - old_stamp) <= 500
            &&& s.offset_after(reference, obs) == stamp - obs[k].t_fs
        }),
{
    law_first_moments_are_first(obs, j);
    law_first_moments_are_first(obs, k);
    let a = choose|a: int| 0 <= a < obs.len() && (#[trigger] obs[a]).at == least_at(obs);
    let b = choose|b: int| 0 <= b < obs.len() && (#[trigger] obs[b]).t_fs == least_t(obs);
    assert(obs[j].at <= obs[a].at);
    assert(obs[k].t_fs <= obs[b].t_fs);
    let delta = obs[j].at * 1_000_000 - obs[k].t_fs;
    assert(clip(delta) == delta);
    let o = s.stamp_offset[reference];
    if s.stamp_offset.contains_key(reference) && delta >= o {
        lemma_rounded_near(delta - o, 1000);
    }
    assert forall|i: int| 0 <= i < obs.len() implies s.stamp(reference, obs) <= (
    #[trigger] obs[i]).at * 1_000_000 by {
        assert(obs[j].at <= obs[i].at);
    }
}

/// A slot is taken, and its scatter does not put it out: fewer than 30
/// residuals, or no more than 1.5 microseconds.
pub open spec fn takes_part(slots: Seq<SlotView>, rx: usize) -> bool {
    rx < slots.len() && slots[rx as int].alive && (slots[rx as int].bias.n < 30
        || slots[rx as int].bias.mad_as <= 1_500_000_000_000)
}

/// A slot is taken, and its scatter puts it out.
pub open spec fn stands_aside(slots: Seq<SlotView>, rx: usize) -> bool {
    rx < slots.len() && slots[rx as int].alive && slots[rx as int].bias.n >= 30
        && slots[rx as int].bias.mad_as > 1_500_000_000_000
}

/// Arrival `k` of a cluster is the first one at its receiver.
pub open spec fn comes_first(cluster: Seq<Arrival>, k: int) -> bool {
    0 <= k < cluster.len() && forall|j: int|
        0 <= j < k ==> (#[trigger] cluster[j]).rx != cluster[k].rx
}

/// `x` is arrival `a` with the bias `bias_as` added, to half a femtosecond.
pub open spec fn is_corrected(a: Arrival, bias_as: i128, x: Arrival) -> bool {
    &&& x.rx == a.rx
    &&& x.at == a.at
    &&& x.sigma_fs == a.sigma_fs
    &&& -500 <= 1000 * (x.t_fs - a.t_fs) - bias_as <= 500
}

/// `list` has the corrected first arrival of a receiver.
pub open spec fn has_corrected(list: Seq<Arrival>, a: Arrival, bias_as: i128) -> bool {
    exists|i: int| 0 <= i < list.len() && is_corrected(a, bias_as, #[trigger] list[i])
}

/// Some first arrival in `cluster`, corrected, is `x`.
pub open spec fn comes_from(slots: Seq<SlotView>, cluster: Seq<Arrival>, x: Arrival) -> bool {
    exists|k: int| #[trigger]
        comes_first(cluster, k) && is_corrected(cluster[k], slots[cluster[k].rx as int].bias.bias_as, x)
}

proof fn lemma_unbiased<M>(s: StateView<M>, a: Arrival)
    requires
        is_sane(a.t_fs as int),
        is_sane(s.slots[a.rx as int].bias.bias_as as int),
    ensures
        is_corrected(a, s.slots[a.rx as int].bias.bias_as, s.unbiased(a)),
{
    let b = s.slots[a.rx as int].bias.bias_as as int;
    lemma_rounded_near(b, 1000);
}

proof fn lemma_first(cluster: Seq<Arrival>)
    requires
        cluster.len() > 0,
    ensures
        comes_first(cluster, cluster.len() - 1) <==> !heard_in(
            cluster.drop_last(),
            cluster.last().rx,
        ),
        forall|k: int| 0 <= k < cluster.len() - 1 ==> #[trigger] comes_first(cluster, k)
            == comes_first(cluster.drop_last(), k),
{
    let rest = cluster.drop_last();
    let n = cluster.len() - 1;
    assert forall|j: int| 0 <= j < n implies #[trigger] rest[j] == cluster[j] by {}
    if comes_first(cluster, n) && heard_in(rest, cluster.last().rx) {
        let j = choose|j: int| 0 <= j < rest.len() && (#[trigger] rest[j]).rx == cluster.last().rx;
        assert(cluster[j].rx == cluster[n].rx);
    }
    if !heard_in(rest, cluster.last().rx) {
        assert forall|j: int| 0 <= j < n implies (#[trigger] cluster[j]).rx != cluster[n].rx by {
            assert(rest[j].rx != cluster.last().rx);
        }
    }
    assert forall|k: int| 0 <= k < n implies #[trigger] comes_first(cluster, k) == comes_first(
        rest,
        k,
    ) by {
        if comes_first(cluster, k) {
            assert forall|j: int| 0 <= j < k implies (#[trigger] rest[j]).rx != rest[k].rx by {
                assert(cluster[j].rx != cluster[k].rx);
            }
        }
        if comes_first(rest, k) {
            assert forall|j: int| 0 <= j < k implies (#[trigger] cluster[j]).rx != cluster[k].rx by {
                assert(rest[j].rx != rest[k].rx);
            }
        }
    }
}

/// The observations of a cluster are the first arrivals at the receivers that
/// take part, all of them and no others, each with its receiver's bias added;
/// those that a solve is compared with are the first arrivals at the receivers
/// that stand aside.
pub proof fn law_first_arrivals_are_observed<M>(
    s: StateView<M>,
    cluster: Seq<Arrival>,
    k: int,
    i: int,
)
    requires
        forall|k: int| 0 <= k < cluster.len() ==> is_sane((#[trigger] cluster[k]).t_fs as int),
        forall|r: int| 0 <= r < s.slots.len() ==> is_sane((#[trigger] s.slots[r]).bias.bias_as as int),
    ensures
        comes_first(cluster, k) && takes_part(s.slots, cluster[k].rx) ==> has_corrected(
            s.sightings(cluster),
            cluster[k],
            s.slots[cluster[k].rx as int].bias.bias_as,
        ),
        comes_first(cluster, k) && stands_aside(s.slots, cluster[k].rx) ==> has_corrected(
            s.bystanders(cluster),
            cluster[k],
            s.slots[cluster[k].rx as int].bias.bias_as,
        ),
        0 <= i < s.sightings(cluster).len() ==> takes_part(s.slots, s.sightings(cluster)[i].rx)
            && comes_from(s.slots, cluster, s.sightings(cluster)[i]),
        0 <= i < s.bystanders(cluster).len() ==> stands_aside(
            s.slots,
            s.bystanders(cluster)[i].rx,
        ) && comes_from(s.slots, cluster, s.bystanders(cluster)[i]),
    decreases cluster.len(),
{
    if cluster.len() > 0 {
        let rest = cluster.drop_last();
        let n = cluster.len() - 1;
        assert forall|j: int| 0 <= j < rest.len() implies is_sane((#[trigger] rest[j]).t_fs as int) by {
            assert(rest[j] == cluster[j]);
        }
        law_first_arrivals_are_observed(s, rest, k, i);
        lemma_first(cluster);
        assert(cluster[n] == cluster.last());
        let a = cluster.last();
        if s.alive(a.rx) {
            assert(is_sane(s.slots[a.rx as int].bias.bias_as as int));
            lemma_unbiased(s, a);
        }
        let (o, b) = (s.sightings(cluster), s.bystanders(cluster));
        let (po, pb) = (s.sightings(rest), s.bystanders(rest));
        if 0 <= k < n {
            assert(rest[k] == cluster[k]);
            let bias = s.slots[cluster[k].rx as int].bias.bias_as;
            if comes_first(cluster, k) && takes_part(s.slots, cluster[k].rx) {
                let x = choose|x: int|
                    0 <= x < po.len() && is_corrected(cluster[k], bias, #[trigger] po[x]);
                assert(o[x] == po[x]);
            }
            if comes_first(cluster, k) && stands_aside(s.slots, cluster[k].rx) {
                let x = choose|x: int|
                    0 <= x < pb.len() && is_corrected(cluster[k], bias, #[trigger] pb[x]);
                assert(b[x] == pb[x]);
            }
        } else if k == n && comes_first(cluster, k) {
            if takes_part(s.slots, a.rx) {
                assert(o[o.len() - 1] == s.unbiased(a));
            }
            if stands_aside(s.slots, a.rx) {
                assert(b[b.len() - 1] == s.unbiased(a));
            }
        }
        if 0 <= i < o.len() {
            if i < po.len() {
                assert(o[i] == po[i]);
                lemma_comes_from(s.slots, cluster, o[i]);
            } else {
                assert(comes_first(cluster, n));
            }
        }
        if 0 <= i < b.len() {
            if i < pb.len() {
                assert(b[i] == pb[i]);
                lemma_comes_from(s.slots, cluster, b[i]);
            } else {
                assert(comes_first(cluster, n));
            }
        }
    }
}

proof fn lemma_comes_from(slots: Seq<SlotView>, cluster: Seq<Arrival>, x: Arrival)
    requires
        cluster.len() > 0,
        comes_from(slots, cluster.drop_last(), x),
    ensures
        comes_from(slots, cluster, x),
{
    let rest = cluster.drop_last();
    lemma_first(cluster);
    let k = choose|k: int| #[trigger]
        comes_first(rest, k) && is_corrected(rest[k], slots[rest[k].rx as int].bias.bias_as, x);
    assert(rest[k] == cluster[k]);
    assert(comes_first(cluster, k));
}

proof fn lemma_chosen_has(s: Seq<Arrival>, n: nat, j: int)
    requires
        n <= s.len(),
        0 <= j < n,
        rank(s, j, s.len()) < 16,
    ensures
        chosen(s, n).contains(s[j]),
    decreases n,
{
    let all = chosen(s, n);
    if j == n - 1 {
        assert(all[all.len() - 1] == s[j]);
    } else {
        lemma_chosen_has(s, (n - 1) as nat, j);
        let head = chosen(s, (n - 1) as nat);
        let i = choose|i: int| 0 <= i < head.len() && head[i] == s[j];
        assert(all[i] == s[j]);
    }
}

proof fn lemma_chosen_from(s: Seq<Arrival>, n: nat, i: int) -> (j: int)
    requires
        n <= s.len(),
        0 <= i < chosen(s, n).len(),
    ensures
        0 <= j < n,
        chosen(s, n)[i] == s[j],
        rank(s, j, s.len()) < 16,
    decreases n,
{
    if i < chosen(s, (n - 1) as nat).len() {
        lemma_chosen_from(s, (n - 1) as nat, i)
    } else {
        n - 1
    }
}

/// A solve gets all observations, or sixteen where there are more; each is one
/// of them, and none that is left out is more precise than one that is kept.
pub proof fn law_the_least_precise_are_left_out(s: Seq<Arrival>, i: int, j: int)
    ensures
        precise(s).len() == if s.len() < 16 {
            s.len()
        } else {
            16
        },
        s.len() <= 16 ==> precise(s) == s,
        0 <= i < precise(s).len() ==> s.contains(precise(s)[i]),
        0 <= i < precise(s).len() && 0 <= j < s.len() && !precise(s).contains(s[j])
            ==> precise(s)[i].sigma_fs <= s[j].sigma_fs,
{
    law_solve_size(s);
    if s.len() > 16 {
        if 0 <= i < precise(s).len() {
            let a = lemma_chosen_from(s, s.len(), i);
            assert(s[a] == precise(s)[i]);
            if 0 <= j < s.len() && !precise(s).contains(s[j]) {
                if rank(s, j, s.len()) < 16 {
                    lemma_chosen_has(s, s.len(), j);
                }
                crate::state::laws::law_the_precise_are_kept(s, a, j);
            }
        }
    } else if 0 <= i < s.len() {
        assert(s.contains(s[i]));
    }
}

/// When the aircraft was last tried, when it had its last fix, and where; an
/// aircraft that is new never was.
pub open spec fn last_of<M>(s: StateView<M>, icao: u32) -> (i64, i64, Option<Geodetic>) {
    if s.tracks.contains_key(icao) {
        (s.tracks[icao].last_attempt, s.tracks[icao].last_time, s.tracks[icao].last_pos)
    } else {
        (0, 0, None)
    }
}

/// A solve goes ahead where the last try is 0.4 s ago or more, the altitude is
/// known, and, with four observations only, the last fix is 30 s ago or more.
pub proof fn law_when_a_solve_goes_ahead<M>(
    s: StateView<M>,
    icao: u32,
    kept: Seq<Arrival>,
    now: i64,
)
    ensures
        s.goes_ahead(icao, kept, now) <==> {
            let (tried, fixed, _) = last_of(s, icao);
            &&& now - tried >= 400_000_000
            &&& s.alts_ft.contains_key(icao)
            &&& (kept.len() != 4 || now - fixed >= 30_000_000_000)
        },
{
}

/// What a cluster leaves behind: with fewer than four observations nothing;
/// else the offset of its reference, a try where the solve goes ahead, and a
/// refusal where only the missing redundancy stops it. Nothing else changes.
pub proof fn law_what_a_cluster_leaves<M>(
    s: StateView<M>,
    icao: u32,
    reference: usize,
    cluster: Seq<Arrival>,
    now: i64,
    other: u32,
    other_ref: usize,
)
    ensures
        ({
            let t = s.after_cluster(icao, reference, cluster, now);
            let obs = s.sightings(cluster);
            let kept = precise(obs);
            let (tried, fixed, pos) = last_of(s, icao);
            let starved = kept.len() == 4 && now - fixed < 30_000_000_000;
            &&& obs.len() < 4 ==> t == s
            &&& obs.len() >= 4 ==> {
                &&& t.stamp_offset.contains_key(reference)
                &&& t.stamp_offset[reference] == s.offset_after(reference, obs)
                &&& t.tracks.contains_key(icao)
                &&& last_of(t, icao).0 == if s.goes_ahead(icao, kept, now) {
                    now
                } else {
                    tried
                }
                &&& last_of(t, icao).1 == fixed
                &&& last_of(t, icao).2 == pos
                &&& t.rejected == (s.rejected + if now - tried >= 400_000_000 && starved {
                    1int
                } else {
                    0
                }) % 0x1_0000_0000_0000_0000
            }
            &&& other != icao ==> t.tracks.contains_key(other) == s.tracks.contains_key(other)
                && t.tracks[other] == s.tracks[other]
            &&& other_ref != reference ==> t.stamp_offset.contains_key(other_ref)
                == s.stamp_offset.contains_key(other_ref) && t.stamp_offset[other_ref]
                == s.stamp_offset[other_ref]
            &&& t == (StateView {
                tracks: t.tracks,
                stamp_offset: t.stamp_offset,
                rejected: t.rejected,
                ..s
            })
        }),
{
}

/// What the solver is given: the most precise observations, the aircraft's
/// newest altitude, the names of the receivers that it is solved from, the last
/// fix as a start where it is less than a minute old and the receivers' own
/// places else, and, for a frame that carries its position, that position where
/// it is less than 5 s old.
pub proof fn law_what_the_solver_is_given<M>(
    s: StateView<M>,
    icao: u32,
    df17: bool,
    reference: usize,
    cluster: Seq<Arrival>,
    now: i64,
    att: Attempt,
    i: int,
)
    requires
        s.calls_for(icao, df17, reference, cluster, now, att),
    ensures
        ({
            let (tried, fixed, pos) = last_of(s, icao);
            let near = s.adsb_pos.contains_key(icao) && now - s.adsb_pos[icao].at < 5_000_000_000
                && s.adsb_pos[icao].at - now < 5_000_000_000;
            &&& att.now == now
            &&& att.df17 == df17
            &&& att.sighting.icao == icao
            &&& att.sighting.alt_ft == s.alts_ft[icao]
            &&& att.sighting.stamp_fs == s.stamp(reference, s.sightings(cluster))
            &&& att.obs@ == precise(s.sightings(cluster))
            &&& att.aside@ == s.bystanders(cluster)
            &&& att.sighting.users@.len() == att.obs@.len()
            &&& 0 <= i < att.obs@.len() ==> att.sighting.users@[i]@
                == s.receivers[att.obs@[i].rx as int].user@
            &&& att.last_pos == pos
            &&& att.claimed is Some <==> df17 && near
            &&& att.claimed is Some ==> att.claimed->0 == s.adsb_pos[icao].pos
            &&& pos is Some && now - fixed < 60_000_000_000 ==> att.start == Start::Warm(pos->0)
            &&& pos is None || now - fixed >= 60_000_000_000 ==> att.start is Centroid
            &&& att.start matches Start::Centroid(list) ==> list@.len() == att.obs@.len() && (0 <= i
                < att.obs@.len() ==> list@[i] == s.receivers[att.obs@[i].rx as int].geo)
        }),
{
    let kept = precise(s.sightings(cluster));
    assert(texts(att.sighting.users@).len() == att.sighting.users@.len());
    if 0 <= i < att.obs@.len() {
        assert(texts(att.sighting.users@)[i] == s.names(kept)[i]);
    }
}

/// A fix with an error over 10 km is refused. A fix of an aircraft that has one
/// is refused where `20 s` times its error is more than `1500 m` times the
/// silence before it, whatever the error and the silence, and where it is
/// between 0.05 s and 30 s later and implies more than 400 m/s. Nothing else is
/// refused, and what is not refused is published, or scored where the frame
/// carries its position. Errors and distances are micrometres, times nanoseconds.
pub proof fn law_fixes_are_judged_by_plain_numbers(
    track: Track,
    now: i64,
    df17: bool,
    sol: Solution,
)
    ensures
        ({
            let j = judged(track, now, df17, Some(sol));
            let silence = now - track.last_time;
            let soon = 1_500_000_000 * silence < 20_000_000_000 * sol.err_um;
            let fast = 50_000_000 < silence < 30_000_000_000 && sol.moved_um * 1_000_000_000
                > 400_000_000 * silence;
            let fresh = track.last_pos is None;
            let precise = sol.err_um <= 10_000_000_000;
            &&& j == Judgement::Imprecise <==> !precise
            &&& j == Judgement::TooSoon <==> precise && !fresh && soon
            &&& j == Judgement::TooFast <==> precise && !fresh && !soon && fast
            &&& j == Judgement::Truth <==> precise && (fresh || (!soon && !fast)) && df17
            &&& j == Judgement::Publish <==> precise && (fresh || (!soon && !fast)) && !df17
            &&& judged(track, now, df17, None) == Judgement::Unsolved
        }),
{
}

/// More silence never makes a fix too soon, and more error never makes it less
/// so.
pub proof fn law_silence_and_precision_help(
    track: Track,
    now: i64,
    later: i64,
    df17: bool,
    a: Solution,
    b: Solution,
)
    requires
        now <= later,
        b.err_um <= a.err_um,
        judged(track, later, df17, Some(b)) == Judgement::TooSoon,
    ensures
        judged(track, now, df17, Some(a)) == Judgement::TooSoon || judged(track, now, df17, Some(a))
            == Judgement::Imprecise,
{
}

/// What a judged solve leaves behind. A refusal is counted and changes nothing
/// else, but that one for speed is held against the track: the fifth in a row
/// forgets its last fix. A published fix is counted, is the last fix of its
/// track and of its aircraft, and the one before it is remembered. No other
/// aircraft changes.
pub proof fn law_what_a_judgement_leaves<M>(
    s: StateView<M>,
    att: Attempt,
    sol: Option<Solution>,
    other: u32,
)
    ensures
        ({
            let t = s.concluded(att, sol);
            let j = s.judgement(att, sol);
            let icao = att.sighting.icao;
            let refused = j != Judgement::Publish && j != Judgement::Truth;
            let rejects = if s.tracks.contains_key(icao) {
                s.tracks[icao].speed_rejects as int
            } else {
                0
            };
            let (tried, fixed, pos) = last_of(s, icao);
            &&& t.rejected == (s.rejected + if refused {
                1int
            } else {
                0
            }) % 0x1_0000_0000_0000_0000
            &&& t.solved == (s.solved + if j == Judgement::Publish {
                1int
            } else {
                0
            }) % 0x1_0000_0000_0000_0000
            &&& refused ==> t.slots == s.slots && t.ac_log == s.ac_log
            &&& j == Judgement::Unsolved || j == Judgement::Imprecise || j == Judgement::TooSoon || j
                == Judgement::Truth ==> t.tracks == s.tracks
            &&& j == Judgement::Truth ==> t.ac_log == s.ac_log
            &&& j == Judgement::TooFast ==> {
                &&& t.tracks.contains_key(icao)
                &&& rejects < 4 ==> t.tracks[icao].speed_rejects == rejects + 1 && last_of(t, icao)
                    == (tried, fixed, pos)
                &&& rejects >= 4 ==> t.tracks[icao].speed_rejects == 0 && last_of(t, icao) == (
                    tried,
                    fixed,
                    None::<Geodetic>,
                )
            }
            &&& j == Judgement::Publish ==> {
                &&& t.tracks.contains_key(icao)
                &&& last_of(t, icao) == (tried, att.now, Some(sol->0.pos))
                &&& t.tracks[icao].speed_rejects == 0
                &&& t.ac_log.contains_key(icao)
                &&& t.ac_log[icao].last_fix == Some(Fix { at: att.now, pos: sol->0.pos })
                &&& t.ac_log[icao].prev_fix == if s.ac_log.contains_key(icao) {
                    s.ac_log[icao].last_fix
                } else {
                    None
                }
                &&& s.ac_log.contains_key(icao) ==> t.ac_log[icao].results == (
                s.ac_log[icao].results + 1) % 0x1_0000_0000_0000_0000 && t.ac_log[icao].seen
                    == s.ac_log[icao].seen && t.ac_log[icao].msgs == s.ac_log[icao].msgs
                    && t.ac_log[icao].good == s.ac_log[icao].good && t.ac_log[icao].bad
                    == s.ac_log[icao].bad && t.ac_log[icao].rx_mlat == s.ac_log[icao].rx_mlat
                    && t.ac_log[icao].rx_sync == s.ac_log[icao].rx_sync
                &&& !s.ac_log.contains_key(icao) ==> t.ac_log[icao].results == 1
            }
            &&& other != icao ==> t.tracks.contains_key(other) == s.tracks.contains_key(other)
                && t.tracks[other] == s.tracks[other] && t.ac_log.contains_key(other)
                == s.ac_log.contains_key(other) && t.ac_log[other] == s.ac_log[other]
            &&& t == (StateView {
                tracks: t.tracks,
                ac_log: t.ac_log,
                slots: t.slots,
                solved: t.solved,
                rejected: t.rejected,
                ..s
            })
        }),
{
}

/// Two fixes of an aircraft that are published one after the other lie apart in
/// time as the second one's error asks.
pub proof fn law_published_fixes_keep_their_distance<M>(
    s: StateView<M>,
    first: Attempt,
    a: Solution,
    second: Attempt,
    b: Solution,
)
    requires
        first.sighting.icao == second.sighting.icao,
        s.judgement(first, Some(a)) == Judgement::Publish,
        s.concluded(first, Some(a)).judgement(second, Some(b)) == Judgement::Publish,
    ensures
        1_500_000_000 * (second.now - first.now) >= 20_000_000_000 * b.err_um,
        50_000_000 < second.now - first.now < 30_000_000_000 ==> b.moved_um * 1_000_000_000
            <= 400_000_000 * (second.now - first.now),
{
}


/// No receiver occurs twice.
pub open spec fn all_different(list: Seq<Arrival>) -> bool {
    forall|i: int, j: int| 0 <= i < j < list.len() ==> list[i].rx != list[j].rx
}

/// Some arrival is at receiver `rx`.
pub open spec fn has_receiver(list: Seq<Arrival>, rx: int) -> bool {
    exists|i: int| 0 <= i < list.len() && (#[trigger] list[i]).rx == rx
}

/// Who learns from a fix: where the solver used all of five observations or
/// more and its error is below 500 m, each receiver by its own residual, those
/// that stood aside too. A published fix teaches bias and scatter, a scored one
/// the bias alone. Of a slot nothing but its bias changes, and a receiver that
/// had no part in it does not change; nor does anyone where the fix is worse.
pub proof fn law_who_learns_from_a_fix<M>(
    s: StateView<M>,
    att: Attempt,
    sol: Solution,
    i: int,
    rx: int,
)
    requires
        all_different(att.obs@),
        all_different(att.aside@),
        forall|k: int| 0 <= k < att.obs@.len() ==> (#[trigger] att.obs@[k]).rx < s.slots.len(),
        forall|k: int| 0 <= k < att.aside@.len() ==> (#[trigger] att.aside@[k]).rx < s.slots.len(),
        forall|a: int, b: int|
            0 <= a < att.obs@.len() && 0 <= b < att.aside@.len() ==> (#[trigger] att.obs@[a]).rx != (
            #[trigger] att.aside@[b]).rx,
    ensures
        ({
            let t = s.concluded(att, Some(sol));
            let j = s.judgement(att, Some(sol));
            let good = sol.residuals_fs@.len() == att.obs@.len() && att.obs@.len() >= 5 && sol.err_um
                < 500_000_000;
            let compared = sol.aside_fs@.len() == att.aside@.len();
            let x = att.obs@[i].rx as int;
            let y = att.aside@[i].rx as int;
            &&& !good ==> t.slots == s.slots
            &&& good && 0 <= i < att.obs@.len() ==> {
                &&& j == Judgement::Publish ==> t.slots[x].bias == s.slots[x].bias.trained(
                    sol.residuals_fs@[i],
                )
                &&& j == Judgement::Truth ==> t.slots[x].bias == s.slots[x].bias.nudged(
                    sol.residuals_fs@[i],
                )
            }
            &&& good && compared && 0 <= i < att.aside@.len() ==> {
                &&& j == Judgement::Publish ==> t.slots[y].bias == s.slots[y].bias.trained(
                    sol.aside_fs@[i],
                )
                &&& j == Judgement::Truth ==> t.slots[y].bias == s.slots[y].bias.nudged(
                    sol.aside_fs@[i],
                )
            }
            &&& 0 <= rx < s.slots.len() && !has_receiver(att.obs@, rx) && !has_receiver(
                att.aside@,
                rx,
            ) ==> t.slots[rx] == s.slots[rx]
            &&& 0 <= rx < s.slots.len() ==> t.slots[rx] == (SlotView {
                bias: t.slots[rx].bias,
                ..s.slots[rx]
            })
            &&& t.slots.len() == s.slots.len()
        }),
{
    let j = s.judgement(att, Some(sol));
    let scatter = j == Judgement::Publish;
    let (o, a) = (att.obs@, att.aside@);
    let mid = taught(s.slots, o, sol.residuals_fs@, o.len(), scatter);
    let end = taught(mid, a, sol.aside_fs@, a.len(), scatter);
    lemma_only_biases(s.slots, o, sol.residuals_fs@, o.len(), scatter);
    lemma_only_biases(mid, a, sol.aside_fs@, a.len(), scatter);
    if 0 <= i < o.len() {
        let x = o[i].rx as int;
        lemma_taught_once(s.slots, o, sol.residuals_fs@, o.len(), scatter, i);
        assert forall|k: int| 0 <= k < a.len() implies (#[trigger] a[k]).rx != x by {
            assert(o[i].rx != a[k].rx);
        }
        lemma_untaught(mid, a, sol.aside_fs@, a.len(), scatter, x);
    }
    if 0 <= i < a.len() {
        let y = a[i].rx as int;
        lemma_taught_once(mid, a, sol.aside_fs@, a.len(), scatter, i);
        assert forall|k: int| 0 <= k < o.len() implies (#[trigger] o[k]).rx != y by {
            assert(o[k].rx != a[i].rx);
        }
        lemma_untaught(s.slots, o, sol.residuals_fs@, o.len(), scatter, y);
    }
    if 0 <= rx < s.slots.len() && !has_receiver(o, rx) && !has_receiver(a, rx) {
        lemma_untaught(s.slots, o, sol.residuals_fs@, o.len(), scatter, rx);
        lemma_untaught(mid, a, sol.aside_fs@, a.len(), scatter, rx);
    }
    if 0 <= rx < s.slots.len() {
        assert(mid[rx] == (SlotView { bias: mid[rx].bias, ..s.slots[rx] }));
        assert(end[rx] == (SlotView { bias: end[rx].bias, ..mid[rx] }));
    }
}

proof fn lemma_only_biases(
    slots: Seq<SlotView>,
    obs: Seq<Arrival>,
    residuals: Seq<i128>,
    n: nat,
    scatter: bool,
)
    requires
        n <= obs.len(),
        forall|i: int| 0 <= i < obs.len() ==> (#[trigger] obs[i]).rx < slots.len(),
    ensures
        taught(slots, obs, residuals, n, scatter).len() == slots.len(),
        forall|i: int|
            0 <= i < slots.len() ==> #[trigger] taught(slots, obs, residuals, n, scatter)[i] == (
            SlotView { bias: taught(slots, obs, residuals, n, scatter)[i].bias, ..slots[i] }),
    decreases n,
{
    if n > 0 {
        lemma_only_biases(slots, obs, residuals, (n - 1) as nat, scatter);
    }
}

/// What leaves the shard: a fix only where one is published, a self-truth row
/// only where a scored fix has a claimed position to be scored against, and
/// nothing else. A fix leaves with its own place, address and stamp, from this
/// shard, to the recipients and no others.
pub proof fn law_what_leaves_the_shard(
    j: Judgement,
    shard: usize,
    att: Attempt,
    sol: Option<Solution>,
    recipients: Seq<u64>,
    v: Verdict,
)
    requires
        is_verdict(j, shard, att, sol, recipients, v),
    ensures
        v is Fix <==> j == Judgement::Publish,
        v is SelfTruth <==> j == Judgement::Truth && att.claimed is Some,
        v matches Verdict::Fix(row) ==> {
            &&& row.shard == shard
            &&& row.icao == att.sighting.icao
            &&& row.stamp_fs == att.sighting.stamp_fs
            &&& row.lat == sol->0.pos.lat_deg
            &&& row.lon == sol->0.pos.lon_deg
            &&& row.filtered_line is None
            &&& row.published.recipients@ == recipients
            &&& row.csv_line@ == csv_text(
                att.sighting.stamp_fs as int,
                att.sighting.icao,
                att.sighting.alt_ft as int,
                texts(att.sighting.users@),
                sol->0.lat@,
                sol->0.lon@,
                sol->0.err@,
            )
            &&& row.published.sbs_line@ == sbs_text(
                att.sighting.stamp_fs as int,
                att.sighting.icao,
                att.sighting.alt_ft as int,
                sol->0.lat@,
                sol->0.lon@,
            )
            &&& row.published.result_line@ == result_text(
                att.sighting.stamp_fs as int,
                att.sighting.icao,
                att.sighting.alt_ft as int,
                att.sighting.users@.len(),
                sol->0.lat@,
                sol->0.lon@,
            )
        },
        v matches Verdict::SelfTruth(line) ==> line@ == truth_text(
            att.sighting.stamp_fs as int,
            att.sighting.icao,
            sol->0.off@,
            sol->0.err@,
            att.sighting.users@.len(),
        ),
{
}


/// A cluster is solved with four observations or more, where the last try is
/// 0.4 s ago or more, the altitude is known, and, with four only, the last fix is
/// 30 s ago or more; and only so.
pub proof fn law_when_a_cluster_is_solved<M>(
    s: StateView<M>,
    icao: u32,
    df17: bool,
    reference: usize,
    cluster: Seq<Arrival>,
    now: i64,
    r: Option<Attempt>,
)
    requires
        s.opens(icao, df17, reference, cluster, now, r),
    ensures
        ({
            let n = s.sightings(cluster).len();
            let (tried, fixed, _) = last_of(s, icao);
            &&& r is Some <==> n >= 4 && now - tried >= 400_000_000 && s.alts_ft.contains_key(icao)
                && (n != 4 || now - fixed >= 30_000_000_000)
            &&& r is Some ==> s.calls_for(icao, df17, reference, cluster, now, r->0)
        }),
{
    law_the_least_precise_are_left_out(s.sightings(cluster), 0, 0);
}

/// The stamp that leaves with a fix is at or before the moment at which every
/// one of its observations came in.
pub proof fn law_a_solve_is_stamped_by_its_first_arrival<M>(
    s: StateView<M>,
    icao: u32,
    df17: bool,
    reference: usize,
    cluster: Seq<Arrival>,
    now: i64,
    r: Option<Attempt>,
    i: int,
)
    requires
        s.opens(icao, df17, reference, cluster, now, r),
        r is Some,
        0 <= i < r->0.obs@.len(),
        forall|k: int|
            0 <= k < s.sightings(cluster).len() ==> is_sane(
                (#[trigger] s.sightings(cluster)[k]).t_fs as int,
            ),
        s.stamp_offset.contains_key(reference) ==> is_sane(s.stamp_offset[reference] as int),
    ensures
        r->0.sighting.stamp_fs <= r->0.obs@[i].at * 1_000_000,
{
    let obs = s.sightings(cluster);
    law_the_least_precise_are_left_out(obs, i, 0);
    let k = choose|k: int| 0 <= k < obs.len() && obs[k] == precise(obs)[i];
    law_first_moments_are_first(obs, k);
    let a = choose|a: int| 0 <= a < obs.len() && (#[trigger] obs[a]).at == least_at(obs);
    let b = choose|b: int| 0 <= b < obs.len() && (#[trigger] obs[b]).t_fs == least_t(obs);
    assert forall|x: int| 0 <= x < obs.len() implies obs[a].at <= (#[trigger] obs[x]).at by {
        law_first_moments_are_first(obs, x);
    }
    assert forall|x: int| 0 <= x < obs.len() implies obs[b].t_fs <= (#[trigger] obs[x]).t_fs by {
        law_first_moments_are_first(obs, x);
    }
    law_stamps_follow_the_first_arrival(s, reference, obs, a, b);
    assert(obs[k].at == r->0.obs@[i].at);
}

} // verus!
