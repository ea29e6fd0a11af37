//! What a report owes to the frames that it brings.

use vstd::prelude::*;
#[allow(unused_imports)]
use crate::binary::Double;
#[allow(unused_imports)]
use crate::frames::{bytes_of, Airborne, Frame};
#[allow(unused_imports)]
use crate::geo::Geodetic;
#[allow(unused_imports)]
use crate::state::intake::{SyncFix, Training};
#[allow(unused_imports)]
use crate::state::publish::Attempt;
#[allow(unused_imports)]
use crate::cluster::Arrival;
#[allow(unused_imports)]
use crate::state::{
    AcView, Claim, Entry, GroupView, Heard, Reporter, RxRef, SlotView, StateView, SyncPointView,
};

verus! {

/// A counter one event later; it starts over after 2^64.
pub open spec fn one_more(n: u64) -> int {
    (n + 1) % 0x1_0000_0000_0000_0000
}

/// A frame is used under the address `icao`: a 24-bit address that it carries,
/// and for a position frame only where those are multilaterated.
pub open spec fn used_under(frame: Frame, mlat_adsb: bool, icao: u32) -> bool {
    icao < 0x100_0000 && match frame {
        Frame::Position(c) => mlat_adsb && c == Some(icao),
        Frame::Altitude(c) => c matches Some((i, _)) && i == icao,
        Frame::AllCall(c) => c == Some(icao),
        Frame::Other => false,
    }
}

/// The newest altitude counts: after a frame that reports one, that is what is
/// known, whatever was known before, and the altitudes of other aircraft stay.
/// A frame that reports none changes none.
pub proof fn law_the_newest_altitude_counts<M>(
    s: StateView<M>,
    r: RxRef,
    frame: Frame,
    m: Seq<char>,
    t_fs: i128,
    at: i64,
    now: u64,
    icao: u32,
    alt: i32,
    other: u32,
)
    requires
        s.live(r),
        bytes_of(m) is Some,
        icao < 0x100_0000,
    ensures
        ({
            let t = s.after_mlat(r, frame, m, t_fs, at, now);
            &&& frame == Frame::Altitude(Some((icao, Some(alt)))) ==> t.alts_ft.contains_key(icao)
                && t.alts_ft[icao] == alt && (other != icao ==> t.alts_ft.contains_key(other)
                == s.alts_ft.contains_key(other) && t.alts_ft[other] == s.alts_ft[other])
            &&& !(frame matches Frame::Altitude(Some((_, Some(_))))) ==> t.alts_ft == s.alts_ft
        }),
{
}

/// What is told of an aircraft's altitude is the last one that was reported:
/// of two reports, the second.
pub proof fn law_the_last_report_is_the_altitude<M>(
    s: StateView<M>,
    r: RxRef,
    q: RxRef,
    m: Seq<char>,
    n: Seq<char>,
    t_fs: i128,
    u_fs: i128,
    at: i64,
    later: i64,
    now: u64,
    then_now: u64,
    icao: u32,
    first: i32,
    second: i32,
    df17: bool,
    reference: usize,
    cluster: Seq<Arrival>,
    att: Attempt,
)
    requires
        s.live(r),
        s.live(q),
        bytes_of(m) is Some,
        bytes_of(n) is Some,
        icao < 0x100_0000,
        s.after_mlat(r, Frame::Altitude(Some((icao, Some(first)))), m, t_fs, at, now).after_mlat(
            q,
            Frame::Altitude(Some((icao, Some(second)))),
            n,
            u_fs,
            later,
            then_now,
        ).calls_for(icao, df17, reference, cluster, later, att),
    ensures
        att.sighting.alt_ft == second,
{
}

/// What a frame leaves behind: one more message of its receiver and of its
/// aircraft, both with the moment at which it came, and one more entry in the
/// group of its content, which keeps its age and its address. A frame that is
/// used under no address changes nothing.
pub proof fn law_what_a_frame_leaves<M>(
    s: StateView<M>,
    r: RxRef,
    frame: Frame,
    m: Seq<char>,
    t_fs: i128,
    at: i64,
    now: u64,
    icao: u32,
    other: u32,
    text: Seq<char>,
    i: int,
)
    requires
        s.live(r),
        bytes_of(m) is Some,
    ensures
        ({
            let t = s.after_mlat(r, frame, m, t_fs, at, now);
            let before = s.slots[r.idx as int];
            let slot = t.slots[r.idx as int];
            let a = t.ac_log[icao];
            let g = t.groups[m];
            &&& (forall|c: u32| !used_under(frame, s.mlat_adsb, c)) ==> t == s
            &&& used_under(frame, s.mlat_adsb, icao) ==> {
                &&& slot.msgs == one_more(before.msgs)
                &&& slot.mlat.contains_key(icao) && slot.mlat[icao] == at
                &&& other != icao ==> slot.mlat.contains_key(other) == before.mlat.contains_key(
                    other,
                ) && slot.mlat[other] == before.mlat[other]
                &&& slot == (SlotView { msgs: slot.msgs, mlat: slot.mlat, ..before })
                &&& 0 <= i < s.slots.len() && i != r.idx ==> t.slots[i] == s.slots[i]
                &&& t.slots.len() == s.slots.len()
                &&& t.ac_log.contains_key(icao)
                &&& a.seen == at
                &&& a.rx_mlat.contains_key(r.idx)
                &&& a.rx_mlat[r.idx].gen == r.gen
                &&& a.rx_mlat[r.idx].at == at
                &&& s.ac_log.contains_key(icao) ==> a.msgs == one_more(s.ac_log[icao].msgs) && a == (
                AcView { seen: a.seen, msgs: a.msgs, rx_mlat: a.rx_mlat, ..s.ac_log[icao] })
                &&& s.ac_log.contains_key(icao) && i != r.idx && 0 <= i <= usize::MAX
                    ==> a.rx_mlat.contains_key(i as usize) == s.ac_log[icao].rx_mlat.contains_key(
                    i as usize,
                ) && a.rx_mlat[i as usize] == s.ac_log[icao].rx_mlat[i as usize]
                &&& !s.ac_log.contains_key(icao) ==> a.msgs == 1 && a.results == 0 && a.last_fix
                    is None && a.prev_fix is None && a.good.n.m == 0 && a.bad.n.m == 0
                &&& other != icao ==> t.ac_log.contains_key(other) == s.ac_log.contains_key(other)
                    && t.ac_log[other] == s.ac_log[other]
                &&& t.groups.contains_key(m)
                &&& g.entries.len() > 0 && g.entries.last() == (Entry { rx: r, t_fs, at })
                &&& s.groups.contains_key(m) ==> g.entries.drop_last() == s.groups[m].entries
                    && g.created == s.groups[m].created && g.icao == s.groups[m].icao && g.df17
                    == s.groups[m].df17
                &&& !s.groups.contains_key(m) ==> g.entries.len() == 1 && g.created == now && g.icao
                    == icao && g.df17 == (bytes_of(m)->0.len() > 0 && 136 <= bytes_of(m)->0[0]
                    < 144)
                &&& text != m ==> t.groups.contains_key(text) == s.groups.contains_key(text)
                    && t.groups[text] == s.groups[text]
            }
            &&& t == (StateView {
                slots: t.slots,
                ac_log: t.ac_log,
                groups: t.groups,
                alts_ft: t.alts_ft,
                ..s
            })
        }),
{
    let t = s.after_mlat(r, frame, m, t_fs, at, now);
    if used_under(frame, s.mlat_adsb, icao) {
        let old_entries = s.group(m, icao, true, now).entries;
        assert(t.groups[m].entries.drop_last() =~= if s.groups.contains_key(m) {
            s.groups[m].entries
        } else {
            Seq::empty()
        });
    } else if forall|c: u32| !used_under(frame, s.mlat_adsb, c) {
        if let Some(c) = frame.address(s.mlat_adsb) {
            assert(used_under(frame, s.mlat_adsb, c));
        }
    }
}

/// Two receivers that hear the same frame are in one group, whichever is first.
pub proof fn law_equal_frames_are_grouped<M>(
    s: StateView<M>,
    r: RxRef,
    q: RxRef,
    frame: Frame,
    m: Seq<char>,
    t_fs: i128,
    u_fs: i128,
    at: i64,
    later: i64,
    now: u64,
    then_now: u64,
    icao: u32,
)
    requires
        s.live(r),
        s.live(q),
        bytes_of(m) is Some,
        used_under(frame, s.mlat_adsb, icao),
    ensures
        ({
            let t = s.after_mlat(r, frame, m, t_fs, at, now).after_mlat(
                q,
                frame,
                m,
                u_fs,
                later,
                then_now,
            );
            let e = t.groups[m].entries;
            &&& t.groups.contains_key(m)
            &&& e.len() >= 2
            &&& e[e.len() - 2] == (Entry { rx: r, t_fs, at })
            &&& e[e.len() - 1] == (Entry { rx: q, t_fs: u_fs, at: later })
            &&& !s.groups.contains_key(m) ==> e.len() == 2 && t.groups[m].created == now
        }),
{
    let mid = s.after_mlat(r, frame, m, t_fs, at, now);
    assert(mid.live(q));
}

/// A pair counts: both texts are hex, both frames are airborne positions of one
/// aircraft with a 24-bit address, and the even one comes first.
pub open spec fn is_whole_pair(
    em: Seq<char>,
    om: Seq<char>,
    even: Option<Airborne>,
    odd: Option<Airborne>,
) -> bool {
    &&& bytes_of(em) is Some
    &&& bytes_of(om) is Some
    &&& even matches Some(e) && odd matches Some(o) && e.icao == o.icao && e.icao < 0x100_0000
        && !e.odd && o.odd
}

/// What a sync pair leaves behind. One that does not count leaves nothing. One
/// that counts is a message of its receiver and keeps its interest in the
/// aircraft; with a position it also sets where the aircraft says it is, and its
/// altitude where it carries one. Where position frames are multilaterated the
/// even frame is one more message and one more entry in its group.
pub proof fn law_what_a_sync_pair_leaves<M>(
    s: StateView<M>,
    r: RxRef,
    em: Seq<char>,
    om: Seq<char>,
    even: Option<Airborne>,
    odd: Option<Airborne>,
    fix: Option<SyncFix>,
    at: i64,
    now: u64,
    other: u32,
    i: int,
)
    requires
        s.live(r),
    ensures
        ({
            let t = s.after_sync(r, em, om, even, odd, fix, at, now);
            let icao = even->0.icao;
            let before = s.slots[r.idx as int];
            let slot = t.slots[r.idx as int];
            let a = t.ac_log[icao];
            let twice = fix is Some && s.mlat_adsb;
            &&& !is_whole_pair(em, om, even, odd) ==> t == s
            &&& is_whole_pair(em, om, even, odd) ==> {
                &&& slot.msgs == if twice {
                    one_more(one_more(before.msgs) as u64)
                } else {
                    one_more(before.msgs)
                }
                &&& slot.sync.contains_key(icao) && slot.sync[icao] == at
                &&& other != icao ==> slot.sync.contains_key(other) == before.sync.contains_key(
                    other,
                ) && slot.sync[other] == before.sync[other]
                &&& !twice ==> slot.mlat == before.mlat && t.groups == s.groups
                &&& twice ==> slot.mlat.contains_key(icao) && slot.mlat[icao] == at
                    && t.groups.contains_key(em) && t.groups[em].entries.len() > 0
                    && t.groups[em].entries.last() == (Entry {
                    rx: r,
                    t_fs: fix->0.arrival_fs,
                    at,
                })
                &&& slot == (SlotView {
                    msgs: slot.msgs,
                    sync: slot.sync,
                    mlat: slot.mlat,
                    ..before
                })
                &&& 0 <= i < s.slots.len() && i != r.idx ==> t.slots[i] == s.slots[i]
                &&& t.slots.len() == s.slots.len()
                &&& t.ac_log.contains_key(icao)
                &&& a.seen == at
                &&& a.rx_sync.contains_key(r.idx)
                &&& a.rx_sync[r.idx].gen == r.gen
                &&& a.rx_sync[r.idx].at == at
                &&& s.ac_log.contains_key(icao) ==> a.msgs == (if twice {
                    one_more(s.ac_log[icao].msgs)
                } else {
                    s.ac_log[icao].msgs as int
                }) && a == (AcView {
                    seen: a.seen,
                    msgs: a.msgs,
                    rx_sync: a.rx_sync,
                    rx_mlat: a.rx_mlat,
                    ..s.ac_log[icao]
                })
                &&& other != icao ==> t.ac_log.contains_key(other) == s.ac_log.contains_key(other)
                    && t.ac_log[other] == s.ac_log[other]
                &&& fix is Some ==> t.adsb_pos.contains_key(icao) && t.adsb_pos[icao].pos
                    == fix->0.claimed && t.adsb_pos[icao].at == at
                &&& fix is Some && even->0.alt_ft is Some ==> t.alts_ft.contains_key(icao)
                    && t.alts_ft[icao] == even->0.alt_ft->0
                &&& fix is None || even->0.alt_ft is None ==> t.alts_ft == s.alts_ft
                &&& fix is None ==> t.adsb_pos == s.adsb_pos && t.syncpoints == s.syncpoints
                &&& other != icao ==> t.alts_ft.contains_key(other) == s.alts_ft.contains_key(other)
                    && t.alts_ft[other] == s.alts_ft[other] && t.adsb_pos.contains_key(other)
                    == s.adsb_pos.contains_key(other) && t.adsb_pos[other] == s.adsb_pos[other]
            }
            &&& t == (StateView {
                slots: t.slots,
                ac_log: t.ac_log,
                groups: t.groups,
                alts_ft: t.alts_ft,
                adsb_pos: t.adsb_pos,
                syncpoints: t.syncpoints,
                ..s
            })
        }),
{
}

/// A sync pair with a position is remembered with its reporters in the order in
/// which they came, up to fifteen, each with its own two times; the age is that
/// of the first report. Other pairs stay as they were.
pub proof fn law_reporters_are_kept_in_order<M>(
    s: StateView<M>,
    r: RxRef,
    em: Seq<char>,
    om: Seq<char>,
    even: Option<Airborne>,
    odd: Option<Airborne>,
    f: SyncFix,
    at: i64,
    now: u64,
    key: (Seq<char>, Seq<char>),
)
    requires
        s.live(r),
        is_whole_pair(em, om, even, odd),
    ensures
        ({
            let t = s.after_sync(r, em, om, even, odd, Some(f), at, now);
            let had = s.syncpoints.contains_key((em, om));
            let p = t.syncpoints[(em, om)];
            let q = s.syncpoints[(em, om)];
            &&& !had ==> t.syncpoints.contains_key((em, om)) && p.created == now && p.reporters
                == seq![Reporter { rx: r, even_fs: f.even_fs, odd_fs: f.odd_fs }]
            &&& had && q.reporters.len() < 15 ==> t.syncpoints.contains_key((em, om)) && p.created
                == q.created && p.reporters == q.reporters.push(
                Reporter { rx: r, even_fs: f.even_fs, odd_fs: f.odd_fs },
            )
            &&& had && q.reporters.len() >= 15 ==> t.syncpoints == s.syncpoints
            &&& key != (em, om) ==> t.syncpoints.contains_key(key) == s.syncpoints.contains_key(key)
                && t.syncpoints[key] == s.syncpoints[key]
        }),
{
    let t = s.after_sync(r, em, om, even, odd, Some(f), at, now);
    let me = Reporter { rx: r, even_fs: f.even_fs, odd_fs: f.odd_fs };
    assert(Seq::<Reporter>::empty().push(me) =~= seq![me]);
}

/// `job` trains `me` with `o` on one half of the pair: the time of that half by
/// either clock.
pub open spec fn is_half_of(job: Training, me: Reporter, o: Reporter, icao: u32) -> bool {
    &&& job.rx == me.rx.idx
    &&& job.other == o.rx.idx
    &&& job.icao == icao
    &&& (job.t_fs == me.even_fs && job.other_fs == o.even_fs) || (job.t_fs == me.odd_fs
        && job.other_fs == o.odd_fs)
}

/// Some connected receiver but `me` among `earlier` trains with it in `job`.
pub open spec fn has_partner<M>(
    s: StateView<M>,
    earlier: Seq<Reporter>,
    me: Reporter,
    icao: u32,
    job: Training,
) -> bool {
    exists|k: int|
        0 <= k < earlier.len() && s.live((#[trigger] earlier[k]).rx) && earlier[k].rx.idx
            != me.rx.idx && is_half_of(job, me, earlier[k], icao)
}

proof fn lemma_halves<M>(s: StateView<M>, earlier: Seq<Reporter>, me: Reporter, icao: u32, i: int, k: int)
    ensures
        0 <= i < s.lessons(earlier, me, icao).len() ==> has_partner(
            s,
            earlier,
            me,
            icao,
            s.lessons(earlier, me, icao)[i],
        ),
        0 <= k < earlier.len() && s.live(earlier[k].rx) && earlier[k].rx.idx != me.rx.idx ==> {
            let all = s.lessons(earlier, me, icao);
            let o = earlier[k];
            &&& all.contains(
                Training {
                    rx: me.rx.idx,
                    other: o.rx.idx,
                    t_fs: me.even_fs,
                    other_fs: o.even_fs,
                    icao,
                },
            )
            &&& all.contains(
                Training { rx: me.rx.idx, other: o.rx.idx, t_fs: me.odd_fs, other_fs: o.odd_fs, icao },
            )
        },
    decreases earlier.len(),
{
    if earlier.len() > 0 {
        let rest = earlier.drop_last();
        let n = earlier.len() - 1;
        let head = s.lessons(rest, me, icao);
        let all = s.lessons(earlier, me, icao);
        lemma_halves(s, rest, me, icao, i, k);
        assert(earlier[n] == earlier.last());
        if 0 <= i < all.len() {
            if i < head.len() {
                assert(all[i] == head[i]);
                let j = choose|j: int|
                    0 <= j < rest.len() && s.live((#[trigger] rest[j]).rx) && rest[j].rx.idx
                        != me.rx.idx && is_half_of(head[i], me, rest[j], icao);
                assert(earlier[j] == rest[j]);
            } else {
                assert(is_half_of(all[i], me, earlier[n], icao));
            }
        }
        if 0 <= k < earlier.len() && s.live(earlier[k].rx) && earlier[k].rx.idx != me.rx.idx {
            let o = earlier[k];
            let a = Training {
                rx: me.rx.idx,
                other: o.rx.idx,
                t_fs: me.even_fs,
                other_fs: o.even_fs,
                icao,
            };
            let b = Training {
                rx: me.rx.idx,
                other: o.rx.idx,
                t_fs: me.odd_fs,
                other_fs: o.odd_fs,
                icao,
            };
            if k < n {
                assert(rest[k] == earlier[k]);
                let x = choose|x: int| 0 <= x < head.len() && head[x] == a;
                let y = choose|y: int| 0 <= y < head.len() && head[y] == b;
                assert(all[x] == a && all[y] == b);
            } else {
                assert(all[all.len() - 2] == a);
                assert(all[all.len() - 1] == b);
            }
        }
    }
}

/// A sync pair trains its reporter with each connected receiver that reported
/// it before, on both halves and on nothing else, and every observation puts
/// the two times of the same half together. A pair that does not count, has no
/// position or has fifteen reporters already trains nobody.
pub proof fn law_both_halves_are_trained_on<M>(
    s: StateView<M>,
    r: RxRef,
    em: Seq<char>,
    om: Seq<char>,
    even: Option<Airborne>,
    odd: Option<Airborne>,
    fix: Option<SyncFix>,
    i: int,
    k: int,
)
    ensures
        ({
            let jobs = s.lessons_of(r, em, om, even, odd, fix);
            let had = s.syncpoints.contains_key((em, om));
            let earlier = s.syncpoints[(em, om)].reporters;
            let me = Reporter { rx: r, even_fs: fix->0.even_fs, odd_fs: fix->0.odd_fs };
            let icao = even->0.icao;
            &&& !s.live(r) || !is_whole_pair(em, om, even, odd) || fix is None || !had || earlier.len()
                >= 15 ==> jobs.len() == 0
            &&& 0 <= i < jobs.len() ==> has_partner(s, earlier, me, icao, jobs[i])
            &&& s.live(r) && is_whole_pair(em, om, even, odd) && fix is Some && had && earlier.len()
                < 15 && 0 <= k < earlier.len() && s.live(earlier[k].rx) && earlier[k].rx.idx != r.idx
                ==> {
                let o = earlier[k];
                &&& jobs.contains(
                    Training {
                        rx: r.idx,
                        other: o.rx.idx,
                        t_fs: me.even_fs,
                        other_fs: o.even_fs,
                        icao,
                    },
                )
                &&& jobs.contains(
                    Training {
                        rx: r.idx,
                        other: o.rx.idx,
                        t_fs: me.odd_fs,
                        other_fs: o.odd_fs,
                        icao,
                    },
                )
            }
        }),
{
    let earlier = s.syncpoints[(em, om)].reporters;
    let me = Reporter { rx: r, even_fs: fix->0.even_fs, odd_fs: fix->0.odd_fs };
    lemma_halves(s, earlier, me, even->0.icao, i, k);
}

/// What an observation leaves behind: both models of the pair, and one more for
/// the receiver and for the aircraft, under taken or refused by the verdict of
/// the first. No other pair, receiver or aircraft changes.
pub proof fn law_what_an_observation_leaves<M>(
    s: StateView<M>,
    job: Training,
    forward: M,
    backward: M,
    took: bool,
    a: usize,
    b: usize,
    other: u32,
    i: int,
)
    requires
        job.rx != job.other,
        job.rx < s.slots.len(),
    ensures
        ({
            let t = s.trained(job, forward, backward, took);
            let (x, y) = (s.slots[job.rx as int], t.slots[job.rx as int]);
            let (p, q) = (s.ac_log[job.icao], t.ac_log[job.icao]);
            let one = Double { m: 0x10_0000_0000_0000, e: (-52) as i32 };
            &&& t.pairs.contains_key((job.rx, job.other)) && t.pairs[(job.rx, job.other)] == forward
            &&& t.pairs.contains_key((job.other, job.rx)) && t.pairs[(job.other, job.rx)] == backward
            &&& (a, b) != (job.rx, job.other) && (a, b) != (job.other, job.rx)
                ==> t.pairs.contains_key((a, b)) == s.pairs.contains_key((a, b)) && t.pairs[(a, b)]
                == s.pairs[(a, b)]
            &&& took ==> y.score.good == x.score.good.plus(one) && y.score.bad == x.score.bad
            &&& !took ==> y.score.bad == x.score.bad.plus(one) && y.score.good == x.score.good
            &&& y == (SlotView { score: y.score, ..x })
            &&& 0 <= i < s.slots.len() && i != job.rx ==> t.slots[i] == s.slots[i]
            &&& t.slots.len() == s.slots.len()
            &&& t.ac_log.contains_key(job.icao)
            &&& s.ac_log.contains_key(job.icao) ==> {
                &&& took ==> q.good.n == p.good.n.plus(one) && q.bad == p.bad
                &&& !took ==> q.bad.n == p.bad.n.plus(one) && q.good == p.good
                &&& q == (AcView { good: q.good, bad: q.bad, ..p })
            }
            &&& !s.ac_log.contains_key(job.icao) ==> q.msgs == 0 && q.seen == 0 && (if took {
                q.good.n == one && q.bad.n.m == 0
            } else {
                q.bad.n == one && q.good.n.m == 0
            })
            &&& other != job.icao ==> t.ac_log.contains_key(other) == s.ac_log.contains_key(other)
                && t.ac_log[other] == s.ac_log[other]
            &&& t.sync_obs == one_more(s.sync_obs)
            &&& t == (StateView {
                pairs: t.pairs,
                slots: t.slots,
                ac_log: t.ac_log,
                sync_obs: t.sync_obs,
                ..s
            })
        }),
{
}

} // verus!
