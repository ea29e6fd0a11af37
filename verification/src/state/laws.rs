//! What holds of a shard whatever its receivers send.

use vstd::prelude::*;
#[allow(unused_imports)]
use crate::bias::lemma_rounded_within;
#[allow(unused_imports)]
use crate::clock::{clip, recent, NANOSECOND_FS};
#[allow(unused_imports)]
use crate::cluster::{lemma_members, members_of, Arrival, MIN_RECEIVERS};
#[allow(unused_imports)]
use crate::listing::{lemma_contains_push, rising, Numbered};
#[allow(unused_imports)]
use crate::order::{law_numbers_in_order, lemma_padded, precedes, span};
#[allow(unused_imports)]
use crate::tally::{can_fade, law_fading_keeps_the_share, law_shares_are_shares};
#[allow(unused_imports)]
use crate::text::{icao_text, texts};
#[allow(unused_imports)]
use crate::frames::{Airborne, Frame};
#[allow(unused_imports)]
use crate::state::intake::{SyncFix, Training};
#[allow(unused_imports)]
use crate::state::publish::{
    ahead, chosen, heard_in, law_bystanders_take_no_part, law_one_trusted_arrival_each, least_at,
    least_t, one_each, precise, rank, Attempt, SOLVE_CAP,
};
#[allow(unused_imports)]
use crate::state::report::{
    fresh, icao_names, in_order, names_all, taken, ClientReport, AC_EXPIRE_NS, INTEREST_NS,
};
#[allow(unused_imports)]
use crate::state::slots::{lemma_removed_orderly, live_among, RxStats};
#[allow(unused_imports)]
use crate::state::verdict::{
    doubted, judged, taught, teaches, too_fast, too_soon, Judgement, Solution, MAX_ERR_UM,
};
#[allow(unused_imports)]
use crate::state::{
    Entry, Heard, ReceiverInfo, Reporter, RxRef, SlotView, StateView, Track, MAX_REPORTERS, MAX_SPEED_REJECTS,
};

verus! {

/// A stale holder is ignored: nothing that it sends or asks changes anything,
/// and it trains nobody.
pub proof fn law_stale_holder_is_ignored<M>(
    s: StateView<M>,
    r: RxRef,
    frame: Frame,
    m: Seq<char>,
    om: Seq<char>,
    even: Option<Airborne>,
    odd: Option<Airborne>,
    fix: Option<SyncFix>,
    t_fs: i128,
    at: i64,
    now: u64,
)
    requires
        !s.live(r),
    ensures
        s.removed(r) == s,
        s.clock_restarted(r) == s,
        s.asked(r) == s,
        s.after_mlat(r, frame, m, t_fs, at, now) == s,
        s.after_sync(r, m, om, even, odd, fix, at, now) == s,
        s.lessons_of(r, m, om, even, odd, fix).len() == 0,
{
}

/// A slot that is handed out again is another's: whoever held it before is
/// stale from then on, and everyone else stays.
pub proof fn law_reuse_ends_the_old_holder<M>(s: StateView<M>, info: ReceiverInfo, r: RxRef)
    requires
        s.orderly(),
        s.slots.len() < usize::MAX,
        s.live(r),
    ensures
        r.idx == s.slot_for(info) ==> !s.added(info).live(r),
        r.idx != s.slot_for(info) ==> s.added(info).live(r),
{
    let base = s.cleared(info.user@);
    if s.by_user.contains_key(info.user@) {
        let old_rx = s.by_user[info.user@];
        lemma_removed_orderly(s, s.holder(old_rx));
        assert(base.free.last() == old_rx);
    }
    assert(base.orderly());
    let i = base.next_slot() as usize;
    assert(base.free.len() > 0 ==> base.free[base.free.len() - 1] == i);
    assert(!base.alive(i));
}

/// What is remembered of a connection that has ended is void, also once its
/// slot is another's: nobody hears an aircraft for it, nobody trains on its
/// times, what it heard is not solved, and no result goes to its slot.
pub proof fn law_stale_memories_are_void<M>(
    s: StateView<M>,
    r: RxRef,
    m: Map<usize, Heard>,
    now: i64,
    earlier: Seq<Reporter>,
    o: Reporter,
    me: Reporter,
    icao: u32,
    entries: Seq<Entry>,
    e: Entry,
    members: Seq<RxRef>,
)
    requires
        !s.live(r),
        m.contains_key(r.idx),
        m[r.idx].gen == r.gen,
        o.rx == r,
        e.rx == r,
    ensures
        !s.hearing(m, now).contains_key(r.idx),
        s.lessons(earlier.push(o), me, icao) == s.lessons(earlier, me, icao),
        s.current(entries.push(e)) == s.current(entries),
        s.connected(members.push(r)) == s.connected(members),
        s.seats(members.push(r)) == s.seats(members),
{
    assert(RxRef { idx: r.idx, gen: m[r.idx].gen } == r);
    assert(earlier.push(o).drop_last() =~= earlier);
    assert(entries.push(e).drop_last() =~= entries);
    assert(members.push(r).drop_last() =~= members);
}

proof fn lemma_live_update(slots: Seq<SlotView>, i: int, x: SlotView)
    requires
        0 <= i < slots.len(),
    ensures
        live_among(slots.update(i, x)) == live_among(slots) + (if x.alive {
            1int
        } else {
            0
        }) - (if slots[i].alive {
            1int
        } else {
            0
        }),
    decreases slots.len(),
{
    let t = slots.update(i, x);
    if i == slots.len() - 1 {
        assert(t.drop_last() =~= slots.drop_last());
    } else {
        assert(t.drop_last() =~= slots.drop_last().update(i, x));
        lemma_live_update(slots.drop_last(), i, x);
    }
}

/// No two connected receivers have the same name.
pub proof fn law_one_slot_per_user<M>(s: StateView<M>, a: usize, b: usize)
    requires
        s.orderly(),
        s.alive(a),
        s.alive(b),
        s.receivers[a as int].user@ == s.receivers[b as int].user@,
    ensures
        a == b,
{
}

/// The table of slots grows only when every slot is taken, and by one.
pub proof fn law_grows_only_when_full<M>(s: StateView<M>, info: ReceiverInfo, i: usize)
    requires
        s.orderly(),
        s.added(info).slots.len() != s.slots.len(),
        i < s.slots.len(),
    ensures
        s.alive(i),
        s.added(info).slots.len() == s.slots.len() + 1,
{
    let base = s.cleared(info.user@);
    if s.by_user.contains_key(info.user@) {
        assert(base.free.len() > 0);
    }
    assert(base.free.len() == 0);
    if !s.alive(i) {
        assert(s.free.contains(i));
    }
}

/// A user who reconnects takes the old slot back, one generation on, and is
/// counted once; nothing of the old connection is left in it.
pub proof fn law_reconnect_takes_the_slot_back<M>(s: StateView<M>, info: ReceiverInfo)
    requires
        s.orderly(),
        s.by_user.contains_key(info.user@),
    ensures
        s.slot_for(info) == s.by_user[info.user@],
        s.added(info).slots.len() == s.slots.len(),
        s.added(info).live_count() == s.live_count(),
        s.added(info).holder(s.slot_for(info)).gen != s.holder(s.slot_for(info)).gen,
        s.added(info).slots[s.slot_for(info) as int] == SlotView::fresh(
            s.added(info).holder(s.slot_for(info)).gen,
        ),
        s.added(info).peers(s.slot_for(info)) == Set::<usize>::empty(),
{
    let old_rx = s.by_user[info.user@];
    let base = s.cleared(info.user@);
    assert(s.alive(old_rx));
    assert(base.free.last() == old_rx);
    lemma_live_update(
        s.slots,
        old_rx as int,
        SlotView { alive: false, ..s.slots[old_rx as int] },
    );
    let gen = base.slots[old_rx as int].gen;
    lemma_live_update(
        base.slots,
        old_rx as int,
        SlotView::fresh(
            if gen == u32::MAX {
                0
            } else {
                (gen + 1) as u32
            },
        ),
    );
    assert(s.added(info).peers(old_rx) =~= Set::<usize>::empty());
}

/// A receiver that leaves is counted no more, and the next newcomer gets its
/// slot, under another generation: the table does not grow.
pub proof fn law_freed_slot_is_used_next<M>(s: StateView<M>, r: RxRef, info: ReceiverInfo)
    requires
        s.orderly(),
        s.live(r),
        !s.removed(r).by_user.contains_key(info.user@),
    ensures
        s.removed(r).live_count() == s.live_count() - 1,
        s.removed(r).slot_for(info) == r.idx,
        s.removed(r).added(info).slots.len() == s.slots.len(),
        s.removed(r).added(info).live_count() == s.live_count(),
        s.removed(r).added(info).holder(r.idx).gen != r.gen,
{
    let t = s.removed(r);
    lemma_live_update(s.slots, r.idx as int, SlotView { alive: false, ..s.slots[r.idx as int] });
    assert(t.free.last() == r.idx);
    lemma_live_update(
        t.slots,
        r.idx as int,
        SlotView::fresh(
            if r.gen == u32::MAX {
                0
            } else {
                (r.gen + 1) as u32
            },
        ),
    );
}

/// A receiver that leaves, or whose clock starts over, takes its pair models
/// along and no others.
pub proof fn law_gone_models<M>(s: StateView<M>, r: RxRef, a: usize, b: usize)
    requires
        s.live(r),
    ensures
        a == r.idx || b == r.idx ==> !s.removed(r).pairs.contains_key((a, b)),
        a == r.idx || b == r.idx ==> !s.clock_restarted(r).pairs.contains_key((a, b)),
        a != r.idx && b != r.idx && s.pairs.contains_key((a, b)) ==> s.removed(
            r,
        ).pairs.contains_key((a, b)) && s.removed(r).pairs[(a, b)] == s.pairs[(a, b)],
        a != r.idx && b != r.idx && s.pairs.contains_key((a, b)) ==> s.clock_restarted(
            r,
        ).pairs.contains_key((a, b)) && s.clock_restarted(r).pairs[(a, b)] == s.pairs[(a, b)],
{
}

/// Two receivers have models of each other or none.
pub open spec fn mutual<M>(s: StateView<M>) -> bool {
    forall|a: usize, b: usize| #[trigger]
        s.pairs.contains_key((a, b)) ==> s.pairs.contains_key((b, a))
}

/// Peers stay mutual, whoever trains, leaves, comes or starts over.
pub proof fn law_peers_are_mutual<M>(
    s: StateView<M>,
    job: Training,
    forward: M,
    backward: M,
    took: bool,
    r: RxRef,
    info: ReceiverInfo,
)
    requires
        mutual(s),
    ensures
        mutual(s.trained(job, forward, backward, took)),
        mutual(s.removed(r)),
        mutual(s.clock_restarted(r)),
        mutual(s.added(info)),
{
    let t = s.trained(job, forward, backward, took);
    assert forall|a: usize, b: usize| #[trigger]
        t.pairs.contains_key((a, b)) implies t.pairs.contains_key((b, a)) by {
        if s.pairs.contains_key((a, b)) {
        }
    }
    assert forall|q: RxRef| #[trigger] mutual(s.removed(q)) by {
        let t = s.removed(q);
        assert forall|a: usize, b: usize| #[trigger]
            t.pairs.contains_key((a, b)) implies t.pairs.contains_key((b, a)) by {
            assert(s.pairs.contains_key((a, b)));
        }
    }
    let t = s.clock_restarted(r);
    assert forall|a: usize, b: usize| #[trigger]
        t.pairs.contains_key((a, b)) implies t.pairs.contains_key((b, a)) by {
        assert(s.pairs.contains_key((a, b)));
    }
    let base = s.cleared(info.user@);
    assert(mutual(base));
    assert(s.added(info).pairs == base.pairs);
}

proof fn lemma_lessons_len<M>(s: StateView<M>, earlier: Seq<Reporter>, me: Reporter, icao: u32)
    ensures
        s.lessons(earlier, me, icao).len() <= 2 * earlier.len(),
    decreases earlier.len(),
{
    if earlier.len() > 0 {
        lemma_lessons_len(s, earlier.drop_last(), me, icao);
    }
}

/// One sync pair never makes more work than training with the 14 reporters
/// that came before the last one it takes.
pub proof fn law_training_is_bounded<M>(
    s: StateView<M>,
    r: RxRef,
    em: Seq<char>,
    om: Seq<char>,
    even: Option<Airborne>,
    odd: Option<Airborne>,
    fix: Option<SyncFix>,
)
    ensures
        s.lessons_of(r, em, om, even, odd, fix).len() <= 2 * (MAX_REPORTERS - 1),
{
    if s.pair_counts(r, em, om, even, odd) && fix is Some && s.reporters((em, om)).len()
        < MAX_REPORTERS {
        lemma_lessons_len(
            s,
            s.reporters((em, om)),
            Reporter { rx: r, even_fs: fix->0.even_fs, odd_fs: fix->0.odd_fs },
            even->0.icao,
        );
    }
}

/// A connection among `members` still stands and has the serial `uid`.
pub open spec fn hears<M>(s: StateView<M>, members: Seq<RxRef>, uid: u64) -> bool {
    exists|i: int|
        0 <= i < members.len() && s.live(#[trigger] members[i])
            && s.receivers[members[i].idx as int].uid == uid
}

/// A result goes to those connections that heard the frame and still stand,
/// and to nobody else: not to a newcomer in the slot of one that has left.
pub proof fn law_results_go_to_hearers<M>(s: StateView<M>, members: Seq<RxRef>, uid: u64)
    ensures
        s.connected(members).contains(uid) <==> hears(s, members, uid),
    decreases members.len(),
{
    if members.len() > 0 {
        let rest = members.drop_last();
        law_results_go_to_hearers(s, rest, uid);
        let head = s.connected(rest);
        let all = s.connected(members);
        if head.contains(uid) {
            let i = choose|i: int|
                0 <= i < rest.len() && s.live(#[trigger] rest[i])
                    && s.receivers[rest[i].idx as int].uid == uid;
            assert(s.live(members[i]));
            let k = choose|k: int| 0 <= k < head.len() && head[k] == uid;
            assert(all[k] == uid);
        }
        if all.contains(uid) && !head.contains(uid) {
            let k = choose|k: int| 0 <= k < all.len() && all[k] == uid;
            if k < head.len() {
                assert(head[k] == uid);
            }
            assert(s.live(members[members.len() - 1]));
        }
        if hears(s, members, uid) {
            let i = choose|i: int|
                0 <= i < members.len() && s.live(#[trigger] members[i])
                    && s.receivers[members[i].idx as int].uid == uid;
            if i < rest.len() {
                assert(s.live(rest[i]));
            } else {
                assert(all[all.len() - 1] == uid);
            }
        }
    }
}

/// A result goes to no connection twice.
pub proof fn law_members_are_listed_once(entries: Seq<Entry>)
    ensures
        members_of(entries).no_duplicates(),
        forall|i: int|
            0 <= i < entries.len() ==> members_of(entries).contains((#[trigger] entries[i]).rx),
        forall|r: RxRef| #[trigger]
            members_of(entries).contains(r) ==> exists|i: int|
                0 <= i < entries.len() && (#[trigger] entries[i]).rx == r,
{
    lemma_members(entries);
}

/// Whoever asks how it does gets the same answer when it asks again: asking
/// fades what was counted, and no share, as long as neither count has faded to
/// the bottom of what a double holds.
pub proof fn law_asking_twice_tells_the_same<M>(s: StateView<M>, r: RxRef, a: RxStats, b: RxStats)
    requires
        s.orderly(),
        s.live(r),
        can_fade(s.slots[r.idx as int].score.good),
        can_fade(s.slots[r.idx as int].score.bad),
        s.stats_are(r.idx, a),
        s.asked(r).stats_are(r.idx, b),
    ensures
        s.asked(r).live(r),
        a.peers == b.peers,
        a.quarantined == b.quarantined,
        a.score.percent_tenths() == b.score.percent_tenths(),
        0 <= a.score.percent_tenths() <= 1000,
{
    assert(s.asked(r).peers(r.idx) =~= s.peers(r.idx));
    assert(s.slots[r.idx as int].is_fair());
    law_fading_keeps_the_share(a.score);
    law_shares_are_shares(a.score);
}

/// A group is handed out once, when its window has passed: a sweep parts the
/// groups into those that stay and those that are ready, and a second sweep at
/// the same moment finds nothing.
pub proof fn law_groups_are_swept_once<M>(s: StateView<M>, now: u64, window: u64, m: Seq<char>)
    ensures
        s.groups.contains_key(m) <==> (s.swept(now, window).groups.contains_key(m) || s.ready(
            now,
            window,
        ).contains_key(m)),
        !(s.swept(now, window).groups.contains_key(m) && s.ready(now, window).contains_key(m)),
        !s.swept(now, window).ready(now, window).contains_key(m),
{
}

proof fn lemma_rank_step(s: Seq<Arrival>, i: int, j: int, n: nat)
    requires
        0 <= i < s.len(),
        0 <= j < s.len(),
        n <= s.len(),
        ahead(s, i, j),
    ensures
        rank(s, i, n) <= rank(s, j, n),
        i < n ==> rank(s, i, n) < rank(s, j, n),
    decreases n,
{
    if n > 0 {
        lemma_rank_step(s, i, j, (n - 1) as nat);
    }
}

proof fn lemma_rank_bound(s: Seq<Arrival>, i: int, n: nat)
    requires
        0 <= i < s.len(),
        n <= s.len(),
    ensures
        rank(s, i, n) <= n,
        i < n ==> rank(s, i, n) < n,
    decreases n,
{
    if n > 0 {
        lemma_rank_bound(s, i, (n - 1) as nat);
    }
}

/// A kept observation is never less precise than one that was left out.
pub proof fn law_the_precise_are_kept(s: Seq<Arrival>, i: int, j: int)
    requires
        0 <= i < s.len(),
        0 <= j < s.len(),
        rank(s, i, s.len()) < SOLVE_CAP,
        rank(s, j, s.len()) >= SOLVE_CAP,
    ensures
        s[i].sigma_fs <= s[j].sigma_fs,
{
    if s[i].sigma_fs > s[j].sigma_fs {
        lemma_rank_step(s, j, i, s.len());
    }
}

spec fn ranks(s: Seq<Arrival>) -> spec_fn(int) -> int {
    |i: int| rank(s, i, s.len()) as int
}

spec fn below(s: Seq<Arrival>, n: int, k: int) -> Set<int> {
    Set::new(|i: int| 0 <= i < n && rank(s, i, s.len()) < k)
}

spec fn has_rank(s: Seq<Arrival>, r: int) -> bool {
    exists|i: int| 0 <= i < s.len() && #[trigger] rank(s, i, s.len()) == r
}

proof fn lemma_ranks_fill(s: Seq<Arrival>)
    ensures
        forall|r: int| 0 <= r < s.len() ==> #[trigger] has_rank(s, r),
{
    let n = s.len() as int;
    let all = vstd::set_lib::set_int_range(0, n);
    vstd::set_lib::lemma_int_range(0, n);
    let f = ranks(s);
    let img = all.map(f);
    assert forall|i: int, j: int|
        all.contains(i) && all.contains(j) && #[trigger] f(i) == #[trigger] f(j) implies i == j by {
        if i != j {
            if ahead(s, i, j) {
                lemma_rank_step(s, i, j, s.len());
            } else {
                lemma_rank_step(s, j, i, s.len());
            }
        }
    }
    assert(vstd::relations::injective_on(f, all));
    vstd::set_lib::lemma_map_size(all, img, f);
    assert forall|r: int| #[trigger] img.contains(r) implies all.contains(r) by {
        let i = choose|i: int| all.contains(i) && f(i) == r;
        lemma_rank_bound(s, i, s.len());
    }
    vstd::set_lib::lemma_subset_equality(img, all);
    assert forall|r: int| 0 <= r < s.len() implies #[trigger] has_rank(s, r) by {
        assert(img.contains(r));
        let i = choose|i: int| all.contains(i) && f(i) == r;
        assert(rank(s, i, s.len()) == r);
    }
}

proof fn lemma_chosen_len(s: Seq<Arrival>, n: nat)
    requires
        n <= s.len(),
    ensures
        below(s, n as int, SOLVE_CAP as int).finite(),
        chosen(s, n).len() == below(s, n as int, SOLVE_CAP as int).len(),
    decreases n,
{
    let k = SOLVE_CAP as int;
    if n == 0 {
        assert(below(s, 0, k) =~= Set::empty());
    } else {
        lemma_chosen_len(s, (n - 1) as nat);
        let rest = below(s, n - 1, k);
        if rank(s, n - 1, s.len()) < k {
            assert(below(s, n as int, k) =~= rest.insert(n - 1));
        } else {
            assert(below(s, n as int, k) =~= rest);
        }
    }
}

/// A solve gets every observation, or exactly 16 of them.
pub proof fn law_solve_size(s: Seq<Arrival>)
    ensures
        s.len() <= SOLVE_CAP ==> precise(s) == s,
        s.len() > SOLVE_CAP ==> precise(s).len() == SOLVE_CAP,
{
    if s.len() > SOLVE_CAP {
        let n = s.len() as int;
        let k = SOLVE_CAP as int;
        lemma_chosen_len(s, s.len());
        lemma_ranks_fill(s);
        let kept = below(s, n, k);
        let f = ranks(s);
        let want = vstd::set_lib::set_int_range(0, k);
        vstd::set_lib::lemma_int_range(0, k);
        assert forall|i: int, j: int|
            kept.contains(i) && kept.contains(j) && #[trigger] f(i) == #[trigger] f(j) implies i == j by {
            if i != j {
                if ahead(s, i, j) {
                    lemma_rank_step(s, i, j, s.len());
                } else {
                    lemma_rank_step(s, j, i, s.len());
                }
            }
        }
        assert(vstd::relations::injective_on(f, kept));
        let img = kept.map(f);
        assert forall|r: int| #[trigger] img.contains(r) <==> want.contains(r) by {
            if want.contains(r) {
                assert(has_rank(s, r));
                let i = choose|i: int| 0 <= i < s.len() && #[trigger] rank(s, i, s.len()) == r;
                assert(kept.contains(i));
                assert(f(i) == r);
            }
            if img.contains(r) {
                let i = choose|i: int| kept.contains(i) && f(i) == r;
                assert(rank(s, i, s.len()) == r);
            }
        }
        assert(img =~= want);
        vstd::set_lib::lemma_map_size(kept, img, f);
    }
}

/// A solve that is made has at least four observations and at most sixteen.
pub proof fn law_solves_have_four_to_sixteen<M>(s: StateView<M>, cluster: Seq<Arrival>)
    requires
        s.sightings(cluster).len() >= MIN_RECEIVERS,
    ensures
        MIN_RECEIVERS <= precise(s.sightings(cluster)).len() <= SOLVE_CAP,
{
    law_solve_size(s.sightings(cluster));
}

/// The stamp of a fix is never later than the first moment at which one of its
/// arrivals came in: the offset never exceeds what was just seen. Times beyond
/// half the range of the clock are left out.
pub proof fn law_stamps_never_lead<M>(s: StateView<M>, reference: usize, obs: Seq<Arrival>)
    requires
        i128::MIN / 2 <= least_t(obs) <= i128::MAX / 2,
    ensures
        s.offset_after(reference, obs) <= least_at(obs) * NANOSECOND_FS - least_t(obs),
        s.stamp(reference, obs) <= least_at(obs) * NANOSECOND_FS,
{
    let delta = clip(least_at(obs) * NANOSECOND_FS - least_t(obs));
    if s.stamp_offset.contains_key(reference) && delta >= s.stamp_offset[reference] {
        lemma_rounded_within(clip(delta - s.stamp_offset[reference]) as int, 1000);
    }
}

/// A published fix is precise enough, not too soon and not too fast.
pub proof fn law_published_fixes_pass_the_gates(track: Track, now: i64, df17: bool, sol: Solution)
    requires
        judged(track, now, df17, Some(sol)) == Judgement::Publish,
    ensures
        !df17,
        sol.err_um <= MAX_ERR_UM,
        track.last_pos is Some ==> !too_soon(now - track.last_time, sol.err_um as int),
        track.last_pos is Some ==> !too_fast(now - track.last_time, sol.moved_um as int),
{
}

/// The publication state after `n` refusals for speed in a row.
pub open spec fn doubted_times(track: Track, n: nat) -> Track
    decreases n,
{
    if n == 0 {
        track
    } else {
        doubted(doubted_times(track, (n - 1) as nat))
    }
}

/// The speed gate cannot suppress a correct stream for good: five refusals in
/// a row at most and the track starts over, and then any fix that is precise
/// enough passes.
pub proof fn law_the_speed_gate_gives_way(track: Track, now: i64, df17: bool, sol: Solution)
    requires
        track.speed_rejects < MAX_SPEED_REJECTS,
    ensures
        ({
            let n = (MAX_SPEED_REJECTS - track.speed_rejects) as nat;
            let t = doubted_times(track, n);
            &&& 1 <= n <= MAX_SPEED_REJECTS
            &&& t.last_pos is None
            &&& t.speed_rejects == 0
            &&& sol.err_um <= MAX_ERR_UM ==> judged(t, now, df17, Some(sol)) == (if df17 {
                Judgement::Truth
            } else {
                Judgement::Publish
            })
        }),
{
    let n = (MAX_SPEED_REJECTS - track.speed_rejects) as nat;
    lemma_doubts(track, (n - 1) as nat);
}

proof fn lemma_doubts(track: Track, n: nat)
    requires
        track.speed_rejects + n < MAX_SPEED_REJECTS,
    ensures
        doubted_times(track, n) == (Track {
            speed_rejects: (track.speed_rejects + n) as u32,
            ..track
        }),
    decreases n,
{
    if n > 0 {
        lemma_doubts(track, (n - 1) as nat);
    }
}

pub proof fn lemma_untaught(
    slots: Seq<SlotView>,
    obs: Seq<Arrival>,
    residuals: Seq<i128>,
    n: nat,
    scatter: bool,
    rx: int,
)
    requires
        n <= obs.len(),
        0 <= rx < slots.len(),
        forall|i: int| 0 <= i < obs.len() ==> (#[trigger] obs[i]).rx < slots.len(),
        forall|i: int| 0 <= i < n ==> (#[trigger] obs[i]).rx != rx,
    ensures
        taught(slots, obs, residuals, n, scatter).len() == slots.len(),
        taught(slots, obs, residuals, n, scatter)[rx] == slots[rx],
    decreases n,
{
    if n > 0 {
        lemma_untaught(slots, obs, residuals, (n - 1) as nat, scatter, rx);
        assert(obs[n - 1].rx != rx);
    }
}

pub proof fn lemma_taught_once(
    slots: Seq<SlotView>,
    obs: Seq<Arrival>,
    residuals: Seq<i128>,
    n: nat,
    scatter: bool,
    i: int,
)
    requires
        i < n <= obs.len(),
        0 <= i,
        one_each(obs),
        forall|k: int| 0 <= k < obs.len() ==> (#[trigger] obs[k]).rx < slots.len(),
    ensures
        taught(slots, obs, residuals, n, scatter).len() == slots.len(),
        taught(slots, obs, residuals, n, scatter)[obs[i].rx as int].bias == (if scatter {
            slots[obs[i].rx as int].bias.trained(residuals[i])
        } else {
            slots[obs[i].rx as int].bias.nudged(residuals[i])
        }),
    decreases n,
{
    let rx = obs[i].rx as int;
    if i == n - 1 {
        assert forall|k: int| 0 <= k < n - 1 implies (#[trigger] obs[k]).rx != rx by {}
        lemma_untaught(slots, obs, residuals, (n - 1) as nat, scatter, rx);
    } else {
        lemma_taught_once(slots, obs, residuals, (n - 1) as nat, scatter, i);
        assert(obs[n - 1].rx != obs[i].rx);
    }
}

/// A receiver that is left out of solves goes on learning: a published fix
/// that teaches those who took part in it teaches every receiver in the cluster
/// that was left out, by how far its own arrival is from where the fix puts it.
/// So it comes back by itself once its residuals have settled.
pub proof fn law_left_out_receivers_go_on_learning<M>(
    s: StateView<M>,
    icao: u32,
    reference: usize,
    cluster: Seq<Arrival>,
    now: i64,
    att: Attempt,
    sol: Solution,
    rx: usize,
)
    requires
        s.sidelined(rx),
        heard_in(cluster, rx),
        s.sightings(cluster).len() >= MIN_RECEIVERS,
        s.calls_for(icao, false, reference, cluster, now, att),
        s.after_cluster(icao, reference, cluster, now).judgement(att, Some(sol))
            == Judgement::Publish,
        teaches(att.obs@, sol),
        sol.aside_fs@.len() == att.aside@.len(),
    ensures
        ({
            let t = s.after_cluster(icao, reference, cluster, now).concluded(att, Some(sol));
            exists|i: int|
                0 <= i < att.aside@.len() && (#[trigger] att.aside@[i]).rx == rx
                    && t.slots[rx as int].bias == s.slots[rx as int].bias.trained(sol.aside_fs@[i])
        }),
{
    let i = lemma_bystander(s, cluster, rx);
    assert(att.aside@[i].rx == rx);
    let mid = taught(s.slots, att.obs@, sol.residuals_fs@, att.obs@.len(), true);
    assert forall|j: int| 0 <= j < att.obs@.len() implies (#[trigger] att.obs@[j]).rx != rx
        && att.obs@[j].rx < s.slots.len() by {
        law_bystanders_take_no_part(s, cluster, rx, i, j);
        law_one_trusted_arrival_each(s, cluster, j);
    }
    assert forall|k: int| 0 <= k < att.aside@.len() implies (#[trigger] att.aside@[k]).rx
        < s.slots.len() by {
        law_bystanders_take_no_part(s, cluster, rx, k, 0);
    }
    law_bystanders_take_no_part(s, cluster, rx, i, 0);
    lemma_untaught(s.slots, att.obs@, sol.residuals_fs@, att.obs@.len(), true, rx as int);
    lemma_taught_once(mid, att.aside@, sol.aside_fs@, att.aside@.len(), true, i);
}

proof fn lemma_bystander<M>(s: StateView<M>, cluster: Seq<Arrival>, rx: usize) -> (i: int)
    requires
        s.sidelined(rx),
        heard_in(cluster, rx),
    ensures
        0 <= i < s.bystanders(cluster).len(),
        s.bystanders(cluster)[i].rx == rx,
{
    law_bystanders_take_no_part(s, cluster, rx, 0, 0);
    choose|i: int|
        0 <= i < s.bystanders(cluster).len() && (#[trigger] s.bystanders(cluster)[i]).rx == rx
}

proof fn lemma_taken(slots: Seq<SlotView>, n: nat)
    requires
        n <= slots.len() <= usize::MAX,
    ensures
        rising(taken(slots, n)),
        forall|i: usize| #[trigger]
            taken(slots, n).contains(i) <==> (i < n && slots[i as int].alive),
    decreases n,
{
    if n > 0 {
        lemma_taken(slots, (n - 1) as nat);
        let head = taken(slots, (n - 1) as nat);
        let all = taken(slots, n);
        let last = (n - 1) as usize;
        assert forall|a: int, b: int| 0 <= a < b < all.len() implies all[a].num() < all[b].num() by {
            assert(all[a] == head[a]);
            assert(head.contains(head[a]));
            if b < head.len() {
                assert(all[b] == head[b]);
            }
        }
        assert forall|i: usize| #[trigger] all.contains(i) <==> (i < n && slots[i as int].alive) by {
            lemma_contains_push(head, last, i);
        }
    }
}

/// A client with the name `user` is reported on.
pub open spec fn is_reported<M>(s: StateView<M>, user: Seq<char>) -> bool {
    exists|k: int|
        0 <= k < taken(s.slots, s.slots.len()).len() && s.receivers[(
        #[trigger] taken(s.slots, s.slots.len())[k]) as int].user@ == user
}

/// The reports on clients and peers are those on the connected receivers, one
/// for each, and no two go under the same name.
pub proof fn law_clients_are_the_connected<M>(s: StateView<M>, i: usize, user: Seq<char>, a: int, b: int)
    requires
        s.orderly(),
    ensures
        ({
            let list = taken(s.slots, s.slots.len());
            &&& rising(list)
            &&& list.contains(i) <==> s.alive(i)
            &&& is_reported(s, user) <==> s.by_user.contains_key(user)
            &&& 0 <= a < b < list.len() ==> s.receivers[list[a] as int].user@
                != s.receivers[list[b] as int].user@
        }),
{
    let list = taken(s.slots, s.slots.len());
    lemma_taken(s.slots, s.slots.len());
    if is_reported(s, user) {
        let k = choose|k: int|
            0 <= k < taken(s.slots, s.slots.len()).len() && s.receivers[(
            #[trigger] taken(s.slots, s.slots.len())[k]) as int].user@ == user;
        assert(list.contains(list[k]));
        assert(s.alive(list[k]));
    }
    if s.by_user.contains_key(user) {
        let x = s.by_user[user];
        assert(s.alive(x));
        assert(list.contains(x));
        let k = choose|k: int| 0 <= k < list.len() && list[k] == x;
        assert(s.receivers[taken(s.slots, s.slots.len())[k] as int].user@ == user);
    }
    if 0 <= a < b < list.len() {
        assert(list.contains(list[a]) && list.contains(list[b]));
        assert(s.alive(list[a]) && s.alive(list[b]));
        assert(list[a].num() < list[b].num());
    }
}

/// `names` are the aircraft in `m` from less than a minute before `now`: `icao`
/// is among them if it is one, the one at `a` is one, and it has six digits and
/// stands before the one at `b` where that comes later.
pub open spec fn fresh_and_sorted(
    names: Seq<Seq<char>>,
    m: Map<u32, i64>,
    now: i64,
    icao: u32,
    a: int,
    b: int,
) -> bool {
    &&& names.contains(icao_text(icao)) <== m.contains_key(icao) && recent(
        now as int,
        m[icao] as int,
        INTEREST_NS as int,
    )
    &&& 0 <= a < names.len() ==> names[a].len() == 6 && exists|c: u32|
        names[a] == icao_text(c) && m.contains_key(c) && recent(
            now as int,
            #[trigger] m[c] as int,
            INTEREST_NS as int,
        )
    &&& 0 <= a < b < names.len() ==> precedes(names[a], names[b])
}

/// The interests of a client, in sync pairs and in single frames, are aircraft
/// that it reported less than a minute ago, and all of those, each once. Their
/// names have six hexadecimal digits and stand in dictionary order.
pub proof fn law_interests_are_fresh_and_sorted<M>(
    s: StateView<M>,
    rx: usize,
    r: ClientReport,
    now: i64,
    icao: u32,
    a: int,
    b: int,
)
    requires
        s.orderly(),
        rx < s.slots.len(),
        s.contributes(rx, now, r),
    ensures
        fresh_and_sorted(texts(r.sync_interest@), s.slots[rx as int].sync, now, icao, a, b),
        fresh_and_sorted(texts(r.mlat_interest@), s.slots[rx as int].mlat, now, icao, a, b),
{
    let slot = s.slots[rx as int];
    assert(slot.is_fair());
    lemma_interests(texts(r.sync_interest@), slot.sync, now, icao, a, b);
    lemma_interests(texts(r.mlat_interest@), slot.mlat, now, icao, a, b);
}

proof fn lemma_interests(
    names: Seq<Seq<char>>,
    m: Map<u32, i64>,
    now: i64,
    icao: u32,
    a: int,
    b: int,
)
    requires
        names_all(names, fresh(m, now).dom()),
        forall|c: u32| #[trigger] m.contains_key(c) ==> c < 0x100_0000,
    ensures
        fresh_and_sorted(names, m, now, icao, a, b),
{
    let set = fresh(m, now).dom();
    let list = choose|list: Seq<u32>| #[trigger] in_order(list, set) && names == icao_names(list);
    reveal_with_fuel(span, 7);
    assert(span(16, 6) == 0x100_0000);
    if m.contains_key(icao) && recent(now as int, m[icao] as int, INTEREST_NS as int) {
        assert(set.contains(icao));
        assert(list.contains(icao));
        let k = choose|k: int| 0 <= k < list.len() && list[k] == icao;
        assert(names[k] == icao_text(icao));
    }
    if 0 <= a < names.len() {
        assert(list.contains(list[a]));
        assert(m.contains_key(list[a]));
        assert(recent(now as int, m[list[a]] as int, INTEREST_NS as int));
        lemma_padded(list[a] as nat, 16, 6);
        if a < b < names.len() {
            assert(list.contains(list[b]));
            assert(m.contains_key(list[b]));
            assert(list[a].num() < list[b].num());
            law_numbers_in_order(list[a] as nat, list[b] as nat, 16, 6);
        }
    }
}

/// The aircraft that are reported on are those that were heard less than an
/// hour ago.
pub proof fn law_reported_aircraft_were_heard_within_the_hour<M>(s: StateView<M>, now: i64, icao: u32)
    ensures
        s.remembered(now).contains_key(icao) <==> s.ac_log.contains_key(icao) && recent(
            now as int,
            s.ac_log[icao].seen as int,
            AC_EXPIRE_NS as int,
        ),
{
}

/// After an export nothing stale is left: every aircraft was heard within the
/// hour, and every interest is less than a minute old and of a connection that
/// still stands.
pub proof fn law_export_leaves_nothing_stale<M>(s: StateView<M>, now: i64, icao: u32, rx: usize)
    ensures
        ({
            let t = s.exported(now);
            let a = t.ac_log[icao];
            &&& t.ac_log.contains_key(icao) ==> recent(now as int, a.seen as int, AC_EXPIRE_NS as int)
            &&& t.ac_log.contains_key(icao) && a.rx_mlat.contains_key(rx) ==> s.live(
                RxRef { idx: rx, gen: a.rx_mlat[rx].gen },
            ) && recent(now as int, a.rx_mlat[rx].at as int, INTEREST_NS as int)
            &&& t.ac_log.contains_key(icao) && a.rx_sync.contains_key(rx) ==> s.live(
                RxRef { idx: rx, gen: a.rx_sync[rx].gen },
            ) && recent(now as int, a.rx_sync[rx].at as int, INTEREST_NS as int)
            &&& s.alive(rx) && t.slots[rx as int].sync.contains_key(icao) ==> recent(
                now as int,
                t.slots[rx as int].sync[icao] as int,
                INTEREST_NS as int,
            )
            &&& s.alive(rx) && t.slots[rx as int].mlat.contains_key(icao) ==> recent(
                now as int,
                t.slots[rx as int].mlat[icao] as int,
                INTEREST_NS as int,
            )
        }),
{
}


/// What a newcomer gets: a slot of its own with nothing learned, counted or
/// remembered in it, under a generation one on from the one before, which its
/// name leads to. It is the reference where there is none, or where its clock is
/// disciplined and the reference's is not. Nobody else's slot changes.
pub proof fn law_what_a_newcomer_gets<M>(
    s: StateView<M>,
    info: ReceiverInfo,
    i: int,
    user: Seq<char>,
)
    requires
        s.orderly(),
        s.slots.len() < usize::MAX,
    ensures
        ({
            let t = s.added(info);
            let k = s.slot_for(info) as int;
            let x = t.slots[k];
            &&& 0 <= k < t.slots.len()
            &&& k <= s.slots.len()
            &&& t.receivers[k] == info
            &&& x.alive
            &&& x.gen == if k < s.slots.len() {
                (s.slots[k].gen + 1) % 0x1_0000_0000
            } else {
                0
            }
            &&& x.bias.n == 0 && x.bias.bias_as == 0 && x.bias.mad_as == 0
            &&& x.score.good.m == 0 && x.score.bad.m == 0
            &&& x.msgs == 0
            &&& x.sync == Map::<u32, i64>::empty()
            &&& x.mlat == Map::<u32, i64>::empty()
            &&& t.by_user.contains_key(info.user@) && t.by_user[info.user@] == k
            &&& user != info.user@ ==> t.by_user.contains_key(user) == s.by_user.contains_key(user)
                && t.by_user[user] == s.by_user[user]
            &&& 0 <= i < s.slots.len() && i != k ==> t.slots[i] == s.slots[i] && t.receivers[i]
                == s.receivers[i]
            &&& s.reference is None ==> t.reference == Some(k as usize)
            &&& s.reference matches Some(r) ==> t.reference == Some(
                if info.gps && !t.receivers[r as int].gps {
                    k as usize
                } else {
                    r
                },
            )
            &&& t == (StateView {
                slots: t.slots,
                receivers: t.receivers,
                by_user: t.by_user,
                free: t.free,
                reference: t.reference,
                pairs: t.pairs,
                stamp_offset: t.stamp_offset,
                ..s
            })
        }),
{
    let base = s.cleared(info.user@);
    if s.by_user.contains_key(info.user@) {
        let old_rx = s.by_user[info.user@];
        assert(s.alive(old_rx));
        lemma_removed_orderly(s, s.holder(old_rx));
        assert(base.free.last() == old_rx);
    } else if s.free.len() > 0 {
        assert(s.free[s.free.len() - 1] < s.slots.len());
    }
}

/// What a leaver takes along: its place, its name and the offset that its clock
/// was reference for, beside its models. Its slot keeps its generation and
/// nobody else's changes.
pub proof fn law_what_a_leaver_takes<M>(s: StateView<M>, r: RxRef, i: int, user: Seq<char>, rx: usize)
    requires
        s.live(r),
    ensures
        ({
            let t = s.removed(r);
            let name = s.receivers[r.idx as int].user@;
            &&& !t.slots[r.idx as int].alive
            &&& t.slots[r.idx as int].gen == s.slots[r.idx as int].gen
            &&& t.slots.len() == s.slots.len()
            &&& t.receivers == s.receivers
            &&& 0 <= i < s.slots.len() && i != r.idx ==> t.slots[i] == s.slots[i]
            &&& !t.by_user.contains_key(name)
            &&& user != name ==> t.by_user.contains_key(user) == s.by_user.contains_key(user)
                && t.by_user[user] == s.by_user[user]
            &&& !t.stamp_offset.contains_key(r.idx)
            &&& rx != r.idx ==> t.stamp_offset.contains_key(rx) == s.stamp_offset.contains_key(rx)
                && t.stamp_offset[rx] == s.stamp_offset[rx]
            &&& t == (StateView {
                slots: t.slots,
                by_user: t.by_user,
                free: t.free,
                pairs: t.pairs,
                stamp_offset: t.stamp_offset,
                ..s
            })
            &&& s.clock_restarted(r) == (StateView { pairs: s.clock_restarted(r).pairs, ..s })
        }),
{
}

/// A sync pair waits for 4 s from its first report, a group for its window; what
/// was first reported in the future has no age yet. What stays, and what is
/// handed out, is as it was, and nothing else changes.
pub proof fn law_what_a_sweep_leaves<M>(
    s: StateView<M>,
    now: u64,
    window: u64,
    key: (Seq<char>, Seq<char>),
    m: Seq<char>,
)
    ensures
        ({
            let t = s.swept(now, window);
            let out = s.ready(now, window);
            &&& t.syncpoints.contains_key(key) <==> s.syncpoints.contains_key(key) && now
                - s.syncpoints[key].created < 4_000_000_000
            &&& t.syncpoints.contains_key(key) ==> t.syncpoints[key] == s.syncpoints[key]
            &&& window > 0 ==> (t.groups.contains_key(m) <==> s.groups.contains_key(m) && now
                - s.groups[m].created < window)
            &&& t.groups.contains_key(m) ==> t.groups[m] == s.groups[m]
            &&& window > 0 ==> (out.contains_key(m) <==> s.groups.contains_key(m) && now
                - s.groups[m].created >= window)
            &&& window == 0 ==> (out.contains_key(m) <==> s.groups.contains_key(m))
            &&& out.contains_key(m) ==> out[m] == s.groups[m]
            &&& t == (StateView { syncpoints: t.syncpoints, groups: t.groups, ..s })
        }),
{
}

/// A slot is taken by the holder that `r` names.
pub open spec fn is_held_by(slots: Seq<SlotView>, r: RxRef) -> bool {
    r.idx < slots.len() && slots[r.idx as int].alive && slots[r.idx as int].gen == r.gen
}

/// Of the entries of a group those are solved whose connections stand, in their
/// order, and of its members those take part and get the result.
pub proof fn law_only_the_connected_count<M>(
    s: StateView<M>,
    entries: Seq<Entry>,
    members: Seq<RxRef>,
)
    ensures
        s.current(entries) == entries.filter(|e: Entry| is_held_by(s.slots, e.rx)),
        s.seats(members) == members.filter(|r: RxRef| is_held_by(s.slots, r)).map_values(
            |r: RxRef| r.idx,
        ),
        s.connected(members) == members.filter(|r: RxRef| is_held_by(s.slots, r)).map_values(
            |r: RxRef| s.receivers[r.idx as int].uid,
        ),
    decreases entries.len() + members.len(),
{
    reveal(Seq::filter);
    let f = |r: RxRef| is_held_by(s.slots, r);
    let idx = |r: RxRef| r.idx;
    let uid = |r: RxRef| s.receivers[r.idx as int].uid;
    if entries.len() > 0 {
        law_only_the_connected_count(s, entries.drop_last(), Seq::empty());
    }
    if members.len() > 0 {
        law_only_the_connected_count(s, Seq::empty(), members.drop_last());
        let head = members.drop_last().filter(f);
        assert(head.push(members.last()).map_values(idx) =~= head.map_values(idx).push(
            members.last().idx,
        ));
        assert(head.push(members.last()).map_values(uid) =~= head.map_values(uid).push(
            s.receivers[members.last().idx as int].uid,
        ));
    } else {
        assert(Seq::<RxRef>::empty().map_values(idx) =~= Seq::<usize>::empty());
        assert(Seq::<RxRef>::empty().map_values(uid) =~= Seq::<u64>::empty());
        assert(members.filter(f) =~= Seq::<RxRef>::empty());
    }
}

/// The reports are on the taken slots, all of them, in order.
pub proof fn law_taken_slots_are_listed(slots: Seq<SlotView>, i: usize, a: int, b: int)
    requires
        slots.len() <= usize::MAX,
    ensures
        taken(slots, slots.len()).contains(i) <==> i < slots.len() && slots[i as int].alive,
        0 <= a < b < taken(slots, slots.len()).len() ==> taken(slots, slots.len())[a] < taken(
            slots,
            slots.len(),
        )[b],
{
    lemma_taken(slots, slots.len());
    let all = taken(slots, slots.len());
    if 0 <= a < b < all.len() {
        assert(all[a].num() < all[b].num());
    }
}


/// The connected receivers are counted, each taken slot once.
pub proof fn law_the_connected_are_counted<M>(s: StateView<M>)
    ensures
        s.live_count() == s.slots.filter(|x: SlotView| x.alive).len(),
{
    lemma_live_filter(s.slots);
}

proof fn lemma_live_filter(slots: Seq<SlotView>)
    ensures
        live_among(slots) == slots.filter(|x: SlotView| x.alive).len(),
    decreases slots.len(),
{
    reveal(Seq::filter);
    if slots.len() > 0 {
        lemma_live_filter(slots.drop_last());
    }
}

} // verus!
