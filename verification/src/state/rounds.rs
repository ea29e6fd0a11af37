//! One sync pair as many receivers report it.

use vstd::prelude::*;
#[allow(unused_imports)]
use crate::frames::{bytes_of, paired, Airborne, ADDRESS_END};
#[allow(unused_imports)]
use crate::state::intake::{
    half_lesson, lemma_noted_keeps, lemma_sync_orderly, lemma_trained_orderly, SyncFix, Training,
};
#[allow(unused_imports)]
use crate::state::slots::{lemma_same_seats, same_seats};
#[allow(unused_imports)]
use crate::state::{bumped, Reporter, RxRef, StateView, MAX_REPORTERS};

verus! {

/// A sync pair: its two texts and what a decoder reads in them.
pub struct Pair {
    pub em: Seq<char>,
    pub om: Seq<char>,
    pub even: Airborne,
    pub odd: Airborne,
}

impl Pair {
    /// Both texts are hex, and they are the halves of one aircraft's position.
    pub open spec fn holds(self) -> bool {
        bytes_of(self.em) is Some && bytes_of(self.om) is Some && paired(
            Some(self.even),
            Some(self.odd),
        )
    }
}

/// One receiver's report of a pair, and what the pair models make of each
/// observation that it gives: both models, and the verdict.
pub struct Telling<M> {
    pub r: RxRef,
    pub fix: SyncFix,
    pub at: i64,
    pub now: u64,
    pub outcome: spec_fn(int) -> (M, M, bool),
}

impl<M> StateView<M> {
    /// The state once the observations in `jobs` have been made.
    pub open spec fn drilled(
        self,
        jobs: Seq<Training>,
        outcome: spec_fn(int) -> (M, M, bool),
    ) -> StateView<M>
        decreases jobs.len(),
    {
        if jobs.len() == 0 {
            self
        } else {
            let (forward, backward, took) = outcome(jobs.len() - 1);
            self.drilled(jobs.drop_last(), outcome).trained(jobs.last(), forward, backward, took)
        }
    }

    /// The observations that a report of a pair gives.
    pub open spec fn observations(self, p: Pair, t: Telling<M>) -> Seq<Training> {
        self.lessons_of(t.r, p.em, p.om, Some(p.even), Some(p.odd), Some(t.fix))
    }

    /// The state once a report of a pair has been taken in and trained on.
    pub open spec fn told(self, p: Pair, t: Telling<M>) -> StateView<M> {
        self.after_sync(
            t.r,
            p.em,
            p.om,
            Some(p.even),
            Some(p.odd),
            Some(t.fix),
            t.at,
            t.now,
        ).drilled(self.observations(p, t), t.outcome)
    }

    /// The state once a pair has been reported by several receivers.
    pub open spec fn told_all(self, p: Pair, list: Seq<Telling<M>>) -> StateView<M>
        decreases list.len(),
    {
        if list.len() == 0 {
            self
        } else {
            self.told_all(p, list.drop_last()).told(p, list.last())
        }
    }
}

/// Reports that train: the first 15.
pub open spec fn trainers(n: nat) -> nat {
    if n < MAX_REPORTERS {
        n
    } else {
        MAX_REPORTERS as nat
    }
}

/// The reports come from different connections that stand.
pub open spec fn different<M>(s: StateView<M>, list: Seq<Telling<M>>) -> bool {
    &&& forall|i: int| 0 <= i < list.len() ==> s.live((#[trigger] list[i]).r)
    &&& forall|i: int, j: int|
        0 <= i < j < list.len() ==> (#[trigger] list[i]).r.idx != (#[trigger] list[j]).r.idx
}

/// A counter after `by` more events; it starts over at its end.
pub open spec fn advanced(n: u64, by: int) -> int {
    (n + by) % 0x1_0000_0000_0000_0000
}

proof fn lemma_advanced(a: u64, by: int, b: u64)
    requires
        b == advanced(a, by),
    ensures
        bumped(b) == advanced(a, by + 1),
        forall|more: int| #[trigger] advanced(b, more) == advanced(a, by + more),
{
    assert forall|more: int| #[trigger] advanced(b, more) == advanced(a, by + more) by {
        vstd::arithmetic::div_mod::lemma_add_mod_noop(
            a + by,
            more,
            0x1_0000_0000_0000_0000,
        );
        vstd::arithmetic::div_mod::lemma_add_mod_noop(
            b as int,
            more,
            0x1_0000_0000_0000_0000,
        );
        vstd::arithmetic::div_mod::lemma_mod_twice(a + by, 0x1_0000_0000_0000_0000);
    }
}

/// What a run of observations does to the rest of the state.
spec fn only_trained<M>(s: StateView<M>, t: StateView<M>, n: nat) -> bool {
    &&& t.orderly()
    &&& same_seats(s, t)
    &&& t.syncpoints == s.syncpoints
    &&& t.sync_obs == advanced(s.sync_obs, n as int)
    &&& forall|k: (usize, usize)| #[trigger] s.pairs.contains_key(k) ==> t.pairs.contains_key(k)
    &&& forall|i: int| 0 <= i < s.slots.len() ==> (#[trigger] t.slots[i]).sync == s.slots[i].sync
}

proof fn lemma_drilled<M>(
    s: StateView<M>,
    jobs: Seq<Training>,
    outcome: spec_fn(int) -> (M, M, bool),
)
    requires
        s.orderly(),
        forall|i: int| 0 <= i < jobs.len() ==> s.can_train(#[trigger] jobs[i]),
    ensures
        only_trained(s, s.drilled(jobs, outcome), jobs.len()),
        forall|i: int|
            0 <= i < jobs.len() ==> s.drilled(jobs, outcome).pairs.contains_key(
                ((#[trigger] jobs[i]).rx, jobs[i].other),
            ) && s.drilled(jobs, outcome).pairs.contains_key((jobs[i].other, jobs[i].rx)),
    decreases jobs.len(),
{
    if jobs.len() > 0 {
        let rest = jobs.drop_last();
        let job = jobs.last();
        assert forall|i: int| 0 <= i < rest.len() implies s.can_train(#[trigger] rest[i]) by {
            assert(rest[i] == jobs[i]);
        }
        lemma_drilled(s, rest, outcome);
        let mid = s.drilled(rest, outcome);
        let (forward, backward, took) = outcome(jobs.len() - 1);
        assert(s.can_train(jobs[jobs.len() - 1]));
        lemma_same_seats(s, mid);
        lemma_trained_orderly(mid, job, forward, backward, took);
        lemma_advanced(s.sync_obs, rest.len() as int, mid.sync_obs);
        let t = mid.trained(job, forward, backward, took);
        assert(t == s.drilled(jobs, outcome));
        assert forall|i: int| 0 <= i < s.slots.len() implies (#[trigger] t.slots[i]).sync
            == s.slots[i].sync by {
            assert(mid.slots[i].sync == s.slots[i].sync);
        }
        assert forall|i: int| 0 <= i < s.slots.len() implies (#[trigger] t.slots[i]).alive
            == s.slots[i].alive && t.slots[i].gen == s.slots[i].gen by {
            assert(mid.slots[i].alive == s.slots[i].alive);
        }
        assert forall|k: (usize, usize)| #[trigger] s.pairs.contains_key(k) implies t.pairs.contains_key(
            k,
        ) by {
            assert(mid.pairs.contains_key(k));
        }
        assert forall|i: int| 0 <= i < jobs.len() implies t.pairs.contains_key(
            ((#[trigger] jobs[i]).rx, jobs[i].other),
        ) && t.pairs.contains_key((jobs[i].other, jobs[i].rx)) by {
            if i < rest.len() {
                assert(rest[i] == jobs[i]);
            }
        }
    }
}

proof fn lemma_full_lessons<M>(
    s: StateView<M>,
    earlier: Seq<Reporter>,
    me: Reporter,
    icao: u32,
)
    requires
        s.live(me.rx),
        icao < ADDRESS_END,
        forall|i: int|
            0 <= i < earlier.len() ==> s.live((#[trigger] earlier[i]).rx) && earlier[i].rx.idx
                != me.rx.idx,
    ensures
        s.lessons(earlier, me, icao).len() == 2 * earlier.len(),
        forall|i: int|
            0 <= i < earlier.len() ==> s.lessons(earlier, me, icao)[2 * i] == half_lesson(
                me,
                #[trigger] earlier[i],
                false,
                icao,
            ),
        forall|i: int|
            0 <= i < s.lessons(earlier, me, icao).len() ==> s.can_train(
                #[trigger] s.lessons(earlier, me, icao)[i],
            ),
    decreases earlier.len(),
{
    if earlier.len() > 0 {
        let rest = earlier.drop_last();
        assert forall|i: int| 0 <= i < rest.len() implies s.live((#[trigger] rest[i]).rx)
            && rest[i].rx.idx != me.rx.idx by {
            assert(rest[i] == earlier[i]);
        }
        lemma_full_lessons(s, rest, me, icao);
        let head = s.lessons(rest, me, icao);
        let all = s.lessons(earlier, me, icao);
        let o = earlier[earlier.len() - 1];
        assert(s.live(o.rx));
        assert(all == head.push(half_lesson(me, o, false, icao)).push(
            half_lesson(me, o, true, icao),
        ));
        assert forall|i: int| 0 <= i < earlier.len() implies all[2 * i] == half_lesson(
            me,
            #[trigger] earlier[i],
            false,
            icao,
        ) by {
            if i < rest.len() {
                assert(rest[i] == earlier[i]);
                assert(all[2 * i] == head[2 * i]);
            }
        }
        assert forall|i: int| 0 <= i < all.len() implies s.can_train(#[trigger] all[i]) by {
            if i < head.len() {
                assert(all[i] == head[i]);
            }
        }
    }
}

/// How things stand after some reports of a new pair.
spec fn stands<M>(s: StateView<M>, t: StateView<M>, p: Pair, list: Seq<Telling<M>>) -> bool {
    let m = trainers(list.len());
    let known = t.reporters((p.em, p.om));
    &&& t.orderly()
    &&& same_seats(s, t)
    &&& known.len() == m
    &&& forall|i: int| 0 <= i < m ==> (#[trigger] known[i]).rx == list[i].r
    &&& t.sync_obs == advanced(s.sync_obs, m * (m - 1))
    &&& forall|i: int, j: int|
        0 <= i < j < m ==> t.pairs.contains_key(
            ((#[trigger] list[i]).r.idx, (#[trigger] list[j]).r.idx),
        ) && t.pairs.contains_key((list[j].r.idx, list[i].r.idx))
    &&& forall|i: int|
        0 <= i < list.len() ==> t.slots[(#[trigger] list[i]).r.idx as int].sync.contains_key(
            p.even.icao,
        )
}

proof fn lemma_told<M>(s: StateView<M>, t: StateView<M>, p: Pair, list: Seq<Telling<M>>)
    requires
        list.len() > 0,
        s.orderly(),
        p.holds(),
        different(s, list),
        stands(s, t, p, list.drop_last()),
    ensures
        stands(s, t.told(p, list.last()), p, list),
        t.observations(p, list.last()).len() == if list.len() <= MAX_REPORTERS {
            2 * (list.len() - 1)
        } else {
            0
        },
{
    let rest = list.drop_last();
    let n = rest.len();
    let (m, m2) = (trainers(n), trainers(list.len()));
    let x = list[list.len() - 1];
    let key = (p.em, p.om);
    let known = t.reporters(key);
    let me = Reporter { rx: x.r, even_fs: x.fix.even_fs, odd_fs: x.fix.odd_fs };
    lemma_same_seats(s, t);
    assert(s.live(x.r) && t.live(x.r));
    assert forall|i: int| 0 <= i < n implies #[trigger] rest[i] == list[i] by {}
    assert forall|i: int| 0 <= i < known.len() implies t.live((#[trigger] known[i]).rx)
        && known[i].rx.idx != me.rx.idx by {
        assert(known[i].rx == rest[i].r);
        assert(s.live(list[i].r));
        assert(list[i].r.idx != list[list.len() - 1].r.idx);
    }
    let (e, o) = (Some(p.even), Some(p.odd));
    let u = t.after_sync(x.r, p.em, p.om, e, o, Some(x.fix), x.at, x.now);
    let jobs = t.observations(p, x);
    lemma_sync_orderly(t, x.r, p.em, p.om, e, o, Some(x.fix), x.at, x.now);
    lemma_noted_keeps(t, x.r, p.em, p.even, x.fix, x.at, x.now);
    let noted = t.noted(x.r, p.em, p.even, x.fix, x.at, x.now);
    assert(u == noted.shared(key, me, x.now));
    assert(noted.reporters(key) == known);
    assert(m * (m - 1) <= 210 && m2 * (m2 - 1) <= 210 && (m2 == m + 1 ==> m2 * (m2 - 1) == m * (m
        - 1) + 2 * m)) by (nonlinear_arith)
        requires
            0 <= m <= 15,
            0 <= m2 <= 15,
    ;
    lemma_same_seats(t, u);
    if n < MAX_REPORTERS {
        assert(u.reporters(key) == known.push(me));
        assert(jobs == t.lessons(known, me, p.even.icao));
        lemma_full_lessons(t, known, me, p.even.icao);
        assert forall|i: int| 0 <= i < jobs.len() implies u.can_train(#[trigger] jobs[i]) by {
            assert(t.can_train(jobs[i]));
        }
    } else {
        assert(u.reporters(key) == known);
        assert(jobs.len() == 0);
    }
    lemma_drilled(u, jobs, x.outcome);
    lemma_advanced(s.sync_obs, m * (m - 1), t.sync_obs);
    assert(u.sync_obs == t.sync_obs);
    let v = t.told(p, x);
    assert(only_trained(u, v, jobs.len()));
    lemma_same_seats(u, v);
    assert(v.reporters(key) == u.reporters(key));
    assert forall|i: int| 0 <= i < s.slots.len() implies (#[trigger] v.slots[i]).alive
        == s.slots[i].alive && v.slots[i].gen == s.slots[i].gen by {
        assert(u.slots[i].alive == t.slots[i].alive);
        assert(t.slots[i].alive == s.slots[i].alive);
    }
    assert(same_seats(s, v));
    assert forall|i: int| 0 <= i < m2 implies (#[trigger] v.reporters(key)[i]).rx == list[i].r by {
        if i < m {
            assert(known[i].rx == rest[i].r);
        }
    }
    assert forall|i: int, j: int| 0 <= i < j < m2 implies v.pairs.contains_key(
        ((#[trigger] list[i]).r.idx, (#[trigger] list[j]).r.idx),
    ) && v.pairs.contains_key((list[j].r.idx, list[i].r.idx)) by {
        if j < m {
            assert(rest[i] == list[i] && rest[j] == list[j]);
            assert(t.pairs.contains_key((rest[i].r.idx, rest[j].r.idx)));
            assert(u.pairs == t.pairs);
        } else {
            assert(known[i].rx == rest[i].r);
            assert(jobs[2 * i] == half_lesson(me, known[i], false, p.even.icao));
        }
    }
    assert forall|i: int| 0 <= i < list.len() implies v.slots[(#[trigger] list[i]).r.idx as int].sync.contains_key(
    p.even.icao) by {
        let at = list[i].r.idx as int;
        assert(s.live(list[i].r));
        assert(v.slots[at].sync == u.slots[at].sync);
        if i < n {
            assert(rest[i] == list[i]);
            assert(t.slots[at].sync.contains_key(p.even.icao));
        }
    }
}

proof fn lemma_fewer<M>(s: StateView<M>, list: Seq<Telling<M>>)
    requires
        list.len() > 0,
        different(s, list),
    ensures
        different(s, list.drop_last()),
{
    let rest = list.drop_last();
    assert forall|i: int| 0 <= i < rest.len() implies s.live((#[trigger] rest[i]).r) by {
        assert(rest[i] == list[i]);
    }
    assert forall|i: int, j: int| 0 <= i < j < rest.len() implies (#[trigger] rest[i]).r.idx != (
    #[trigger] rest[j]).r.idx by {
        assert(rest[i] == list[i] && rest[j] == list[j]);
    }
}

proof fn lemma_told_all<M>(s: StateView<M>, p: Pair, list: Seq<Telling<M>>)
    requires
        s.orderly(),
        p.holds(),
        !s.syncpoints.contains_key((p.em, p.om)),
        different(s, list),
    ensures
        stands(s, s.told_all(p, list), p, list),
    decreases list.len(),
{
    if list.len() > 0 {
        let rest = list.drop_last();
        lemma_fewer(s, list);
        lemma_told_all(s, p, rest);
        lemma_told(s, s.told_all(p, rest), p, list);
    }
}

/// A new sync pair that `n` receivers report gives `m * (m - 1)` observations,
/// `m` being `n` or 15 if that is less: each two of the first 15 train with
/// each other on both halves, and are peers either way. Whoever comes later
/// trains nobody, and its report is counted all the same. The count of
/// observations starts over at its end.
pub proof fn law_reporters_train_with_each_other<M>(
    s: StateView<M>,
    p: Pair,
    list: Seq<Telling<M>>,
    i: int,
    j: int,
)
    requires
        s.orderly(),
        p.holds(),
        !s.syncpoints.contains_key((p.em, p.om)),
        different(s, list),
    ensures
        ({
            let t = s.told_all(p, list);
            let m = trainers(list.len());
            &&& t.sync_obs == advanced(s.sync_obs, m * (m - 1))
            &&& 0 <= i < j < m ==> t.peers(list[i].r.idx).contains(list[j].r.idx) && t.peers(
                list[j].r.idx,
            ).contains(list[i].r.idx)
            &&& 0 <= i < list.len() ==> t.slots[list[i].r.idx as int].sync.contains_key(p.even.icao)
            &&& list.len() > MAX_REPORTERS ==> s.told_all(p, list.drop_last()).observations(
                p,
                list.last(),
            ).len() == 0
        }),
{
    lemma_told_all(s, p, list);
    if list.len() > 0 {
        let rest = list.drop_last();
        lemma_fewer(s, list);
        lemma_told_all(s, p, rest);
        lemma_told(s, s.told_all(p, rest), p, list);
    }
}

} // verus!
