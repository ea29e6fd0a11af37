//! Receivers coming and going.

use vstd::prelude::*;
#[allow(unused_imports)]
use crate::listing::{is_listing, lemma_contains_push, lemma_has_key_push, lemma_listing};
use crate::state::{ReceiverInfo, RxRef, Slot, State};
#[allow(unused_imports)]
use crate::state::{slot_views, SlotView, StateView};
use crate::rows::Choice;
use crate::tally::Score;
#[allow(unused_imports)]
use crate::rows::{distinct_keys, has_key, kept, lemma_map_of};
#[allow(unused_imports)]
use crate::table::ref_views;

verus! {

/// The pair models that do not involve slot `rx`.
pub struct Without {
    pub rx: usize,
}

impl<W: View> Choice<(usize, usize), W> for Without {
    open spec fn picks(&self, k: (usize, usize), w: W::V) -> bool {
        k.0 != self.rx && k.1 != self.rx
    }

    fn check(&self, k: &(usize, usize), w: &W) -> (r: bool) {
        k.0 != self.rx && k.1 != self.rx
    }
}

/// The pair models that do not involve slot `rx`.
pub open spec fn without<M>(pairs: Map<(usize, usize), M>, rx: usize) -> Map<(usize, usize), M> {
    kept(pairs, |k: (usize, usize), m: M| k.0 != rx && k.1 != rx)
}

impl<M> StateView<M> {
    /// The state once `r` has left. A stale holder changes nothing.
    pub open spec fn removed(self, r: RxRef) -> StateView<M> {
        if !self.live(r) {
            self
        } else {
            let i = r.idx as int;
            StateView {
                slots: self.slots.update(i, SlotView { alive: false, ..self.slots[i] }),
                pairs: without(self.pairs, r.idx),
                stamp_offset: self.stamp_offset.remove(r.idx),
                by_user: self.by_user.remove(self.receivers[i].user@),
                free: self.free.push(r.idx),
                ..self
            }
        }
    }

    /// The current holder of slot `i`.
    pub open spec fn holder(self, i: usize) -> RxRef {
        RxRef { idx: i, gen: self.slots[i as int].gen }
    }

    /// The state with whoever else has the name `user` gone.
    pub open spec fn cleared(self, user: Seq<char>) -> StateView<M> {
        if self.by_user.contains_key(user) {
            self.removed(self.holder(self.by_user[user]))
        } else {
            self
        }
    }

    /// The slot that the next receiver gets: the one freed last, else a new one.
    pub open spec fn next_slot(self) -> int {
        if self.free.len() > 0 {
            self.free.last() as int
        } else {
            self.slots.len() as int
        }
    }

    /// The state with `info` in the next slot.
    pub open spec fn seated(self, info: ReceiverInfo) -> StateView<M> {
        let i = self.next_slot();
        if self.free.len() > 0 {
            let gen = self.slots[i].gen;
            StateView {
                receivers: self.receivers.update(i, info),
                slots: self.slots.update(
                    i,
                    SlotView::fresh(
                        if gen == u32::MAX {
                            0
                        } else {
                            (gen + 1) as u32
                        },
                    ),
                ),
                free: self.free.drop_last(),
                by_user: self.by_user.insert(info.user@, i as usize),
                ..self
            }
        } else {
            StateView {
                receivers: self.receivers.push(info),
                slots: self.slots.push(SlotView::fresh(0)),
                by_user: self.by_user.insert(info.user@, i as usize),
                ..self
            }
        }
    }

    /// The state with slot `i` as the reference, where it is the better one:
    /// the first receiver is, and one with a disciplined clock over one without.
    pub open spec fn referred(self, i: usize, gps: bool) -> StateView<M> {
        StateView {
            reference: match self.reference {
                None => Some(i),
                Some(r) => if gps && !self.receivers[r as int].gps {
                    Some(i)
                } else {
                    Some(r)
                },
            },
            ..self
        }
    }

    /// The state once `info` has connected: it takes the place of whoever has
    /// its name.
    pub open spec fn added(self, info: ReceiverInfo) -> StateView<M> {
        let base = self.cleared(info.user@);
        base.seated(info).referred(base.next_slot() as usize, info.gps)
    }

    /// The slot that `info` gets.
    pub open spec fn slot_for(self, info: ReceiverInfo) -> usize {
        self.cleared(info.user@).next_slot() as usize
    }

    /// The state once the clock of `r` has started over: what the pair models
    /// learned of it is void.
    pub open spec fn clock_restarted(self, r: RxRef) -> StateView<M> {
        if self.live(r) {
            StateView { pairs: without(self.pairs, r.idx), ..self }
        } else {
            self
        }
    }
}

/// A receiver that leaves keeps the state orderly.
pub proof fn lemma_removed_orderly<M>(s: StateView<M>, r: RxRef)
    requires
        s.orderly(),
    ensures
        s.removed(r).orderly(),
{
    if s.live(r) {
        let t = s.removed(r);
        assert forall|i: usize| i != r.idx implies #[trigger] t.alive(i) == s.alive(i) by {}
        assert(!t.alive(r.idx));
        assert(t.free.no_duplicates()) by {
            assert(!s.free.contains(r.idx));
        }
        assert forall|i: int| 0 <= i < t.free.len() implies #[trigger] t.free[i] < t.slots.len()
            && !t.alive(t.free[i]) by {
            if i < s.free.len() {
                assert(t.free[i] == s.free[i]);
            }
        }
        assert forall|i: usize| i < t.slots.len() && !(#[trigger] t.alive(i)) implies t.free.contains(
            i,
        ) by {
            if i == r.idx {
                assert(t.free[t.free.len() - 1] == i);
            } else {
                assert(!s.alive(i));
                assert(s.free.contains(i));
                let k = choose|k: int| 0 <= k < s.free.len() && s.free[k] == i;
                assert(t.free[k] == i);
            }
        }
        assert forall|i: usize| #[trigger] t.alive(i) implies t.by_user.contains_key(
            t.receivers[i as int].user@,
        ) && t.by_user[t.receivers[i as int].user@] == i by {
            assert(s.alive(i));
            assert(s.alive(r.idx));
        }
        assert forall|c: u32| #[trigger] t.tracks.contains_key(c) implies t.tracks[c].speed_rejects
            < crate::state::MAX_SPEED_REJECTS by {
            assert(s.tracks.contains_key(c));
        }
    }
}

/// A receiver that connects keeps the state orderly.
pub proof fn lemma_added_orderly<M>(s: StateView<M>, info: ReceiverInfo)
    requires
        s.orderly(),
        s.slots.len() < usize::MAX || s.cleared(info.user@).free.len() > 0,
    ensures
        s.added(info).orderly(),
        s.added(info).slots.len() <= s.slots.len() + 1,
        s.added(info).live(s.added(info).holder(s.slot_for(info))),
{
    if s.by_user.contains_key(info.user@) {
        lemma_removed_orderly(s, s.holder(s.by_user[info.user@]));
    }
    let base = s.cleared(info.user@);
    let i = base.next_slot() as usize;
    let t = s.added(info);
    assert(base.orderly());
    assert(!base.by_user.contains_key(info.user@));
    assert(base.free.len() > 0 ==> base.free[base.free.len() - 1] == i);
    assert(!base.alive(i));
    assert(t.alive(i));
    assert forall|j: usize| j != i implies #[trigger] t.alive(j) == base.alive(j) by {}
    assert(t.free.no_duplicates());
    assert forall|k: int| 0 <= k < t.free.len() implies #[trigger] t.free[k] < t.slots.len()
        && !t.alive(t.free[k]) by {
        assert(t.free[k] == base.free[k]);
        assert(base.free.len() > 0 ==> base.free[base.free.len() - 1] == i);
    }
    assert forall|j: usize| j < t.slots.len() && !(#[trigger] t.alive(j)) implies t.free.contains(
        j,
    ) by {
        assert(!base.alive(j));
        assert(base.free.contains(j));
        let k = choose|k: int| 0 <= k < base.free.len() && base.free[k] == j;
        assert(k != base.free.len() - 1);
        assert(t.free[k] == j);
    }
    assert forall|u: Seq<char>| #[trigger] t.by_user.contains_key(u) implies t.alive(t.by_user[u])
        && t.receivers[t.by_user[u] as int].user@ == u by {
        if u != info.user@ {
            assert(base.by_user.contains_key(u));
        }
    }
    assert forall|j: usize| #[trigger] t.alive(j) implies t.by_user.contains_key(
        t.receivers[j as int].user@,
    ) && t.by_user[t.receivers[j as int].user@] == j by {
        if j != i {
            assert(base.alive(j));
        }
    }
    assert forall|c: u32| #[trigger] t.tracks.contains_key(c) implies t.tracks[c].speed_rejects
        < crate::state::MAX_SPEED_REJECTS by {
        assert(base.tracks.contains_key(c));
    }
}

impl<M> State<M> {
    /// The receiver `r` has left. A stale holder changes nothing: the slot may
    /// be another's by now.
    pub fn remove_receiver(&mut self, r: RxRef)
        requires
            old(self)@.orderly(),
        ensures
            final(self)@ == old(self)@.removed(r),
            final(self)@.orderly(),
    {
        proof {
            lemma_removed_orderly(self@, r);
        }
        if !self.live(r) {
            return;
        }
        let rx: usize = r.idx;
        let ghost before = self@;
        let ghost slots = self.slots@;
        assert(self.receivers@.len() == self.slots@.len());
        self.slots[rx].alive = false;
        self.pairs.retain(&Without { rx });
        let _ = self.stamp_offset.take(&rx);
        let _ = self.by_user.take(&self.receivers[rx].user);
        self.free_slots.push(rx);
        proof {
            let after = before.removed(r);
            assert(slot_views(self.slots@) =~= after.slots);
            assert(self.pairs@ =~= after.pairs);
            assert(self@ =~= after);
        }
    }

    /// A receiver has connected. A reconnect under the same name takes the old
    /// slot over: feeders leave half-open sockets behind, and the late
    /// messages of the old connection die on the generation check.
    pub fn add_receiver(&mut self, info: ReceiverInfo) -> (r: RxRef)
        requires
            old(self)@.orderly(),
        ensures
            final(self)@ == old(self)@.added(info),
            final(self)@.orderly(),
            r == final(self)@.holder(old(self)@.slot_for(info)),
            final(self)@.live(r),
    {
        let ghost before = self@;
        let held: Option<usize> = match self.by_user.get(&info.user) {
            Some(i) => Some(*i),
            None => None,
        };
        if let Some(i) = held {
            let gen: u32 = self.slots[i].gen;
            self.remove_receiver(RxRef { idx: i, gen });
        }
        let ghost base = self@;
        assert(base == before.cleared(info.user@));
        let ghost seat = info;
        let gps: bool = info.gps;
        let user = info.user.clone();
        let idx: usize = match self.free_slots.pop() {
            Some(i) => {
                assert(base.free[base.free.len() - 1] == i);
                let gen: u32 = self.slots[i].gen;
                self.receivers[i] = info;
                self.slots[i] = Slot::new(gen.wrapping_add(1));
                i
            },
            None => {
                self.receivers.push(info);
                self.slots.push(Slot::new(0));
                self.receivers.len() - 1
            },
        };
        self.by_user.insert(user, idx);
        proof {
            lemma_added_orderly(before, seat);
            assert(self.free_slots@ =~= base.seated(seat).free);
            assert(slot_views(self.slots@) =~= base.seated(seat).slots);
            assert(self@ =~= base.seated(seat));
        }
        match self.reference {
            None => {
                self.reference = Some(idx);
            },
            Some(r) => {
                if gps && !self.receivers[r].gps {
                    self.reference = Some(idx);
                }
            },
        }
        assert(self@ =~= before.added(seat));
        assert(slot_views(self.slots@)[idx as int] == self.slots@[idx as int]@);
        RxRef { idx, gen: self.slots[idx].gen }
    }

    /// The clock of `r` started over: its pair models are void.
    pub fn clock_reset(&mut self, r: RxRef)
        requires
            old(self)@.orderly(),
        ensures
            final(self)@ == old(self)@.clock_restarted(r),
            final(self)@.orderly(),
    {
        if !self.live(r) {
            return;
        }
        let ghost before = self@;
        self.pairs.retain(&Without { rx: r.idx });
        proof {
            let after = before.clock_restarted(r);
            assert(self.pairs@ =~= after.pairs);
            assert(self@ =~= after);
            lemma_same_standing(before, after);
        }
    }

    /// The slots that `rx` has a model towards.
    pub(crate) fn peers_of(&self, rx: usize) -> (r: Vec<usize>)
        ensures
            is_listing(r@, self@.peers(rx)),
    {
        let mut out: Vec<usize> = Vec::new();
        let all = self.pairs.rows();
        let ghost rows = ref_views(all@);
        let mut i: usize = 0;
        while i < all.len()
            invariant
                i <= all@.len(),
                rows == ref_views(all@),
                distinct_keys(rows),
                out@.no_duplicates(),
                forall|b: usize|
                    #![trigger out@.contains(b)]
                    out@.contains(b) <==> has_key(rows.take(i as int), (rx, b)),
            decreases all@.len() - i,
        {
            let k: &(usize, usize) = all[i].0;
            let ghost head = rows.take(i as int);
            let ghost next = rows.take(i + 1);
            let ghost before = out@;
            let ghost key = rows[i as int].0;
            proof {
                assert(next =~= head.push(rows[i as int]));
                assert forall|q: (usize, usize)| #[trigger] has_key(next, q) <==> (has_key(head, q)
                    || q == key) by {
                    lemma_has_key_push(head, rows[i as int], q);
                }
                assert(!has_key(head, key));
            }
            if k.0 == rx {
                out.push(k.1);
                proof {
                    assert(!before.contains(key.1));
                    assert forall|b: usize| #[trigger] out@.contains(b) <==> (before.contains(b) || b
                        == key.1) by {
                        lemma_contains_push(before, key.1, b);
                    }
                }
            }
            i = i + 1;
        }
        proof {
            assert(rows.take(i as int) =~= rows);
            lemma_map_of(rows);
            assert forall|b: usize| out@.contains(b) <==> #[trigger] self@.peers(rx).contains(b) by {
                assert(out@.contains(b) <==> has_key(rows, (rx, b)));
                assert(self.pairs@.contains_key((rx, b)) <==> has_key(rows, (rx, b)));
            }
            lemma_listing(out@, self@.peers(rx));
        }
        out
    }

    /// How a receiver does: its peers, what its observations were worth since
    /// it last asked, and whether it is left out. Asking fades the counts.
    pub fn receiver_stats(&mut self, r: RxRef) -> (res: Option<RxStats>)
        requires
            old(self)@.orderly(),
        ensures
            final(self)@ == old(self)@.asked(r),
            final(self)@.orderly(),
            match res {
                Some(st) => old(self)@.live(r) && old(self)@.stats_are(r.idx, st)
                    && st.score.is_fair(),
                None => !old(self)@.live(r),
            },
    {
        if !self.live(r) {
            return None;
        }
        let ghost before = self@;
        let rx: usize = r.idx;
        let peers = self.peers_of(rx);
        assert(before.slots[rx as int].is_fair());
        let score: Score = self.slots[rx].score;
        self.slots[rx].score = score.fade();
        let quarantined: bool = self.slots[rx].bias.is_quarantined();
        proof {
            assert(slot_views(self.slots@) =~= before.asked(r).slots);
            assert(self@ =~= before.asked(r));
            lemma_same_standing(before, self@);
        }
        Some(RxStats { peers: peers.len(), score, quarantined })
    }

    /// How many receivers are connected.
    pub fn live_receivers(&self) -> (r: usize)
        ensures
            r == self@.live_count(),
    {
        let mut n: usize = 0;
        let mut i: usize = 0;
        while i < self.slots.len()
            invariant
                i <= self.slots@.len(),
                n <= i,
                n == live_among(self@.slots.take(i as int)),
                self@.slots == slot_views(self.slots@),
            decreases self.slots@.len() - i,
        {
            proof {
                let next = self@.slots.take(i + 1);
                assert(next.drop_last() =~= self@.slots.take(i as int));
                assert(next.last() == self.slots@[i as int]@);
            }
            if self.slots[i].alive {
                n = n + 1;
            }
            i = i + 1;
        }
        assert(self@.slots.take(i as int) =~= self@.slots);
        n
    }

    /// The slots of those of `members` that are still connected.
    pub fn present(&self, members: &Vec<RxRef>) -> (r: Vec<usize>)
        ensures
            r@ == self@.seats(members@),
    {
        let mut out: Vec<usize> = Vec::new();
        let mut i: usize = 0;
        while i < members.len()
            invariant
                i <= members@.len(),
                out@ == self@.seats(members@.take(i as int)),
            decreases members@.len() - i,
        {
            let r: RxRef = members[i];
            proof {
                let next = members@.take(i + 1);
                assert(next.drop_last() =~= members@.take(i as int));
                assert(next.last() == r);
            }
            if self.live(r) {
                out.push(r.idx);
            }
            i = i + 1;
        }
        assert(members@.take(i as int) =~= members@);
        out
    }

    /// The serials of those of `members` that are still connected: who gets a
    /// result.
    pub fn recipients(&self, members: &Vec<RxRef>) -> (r: Vec<u64>)
        requires
            self@.orderly(),
        ensures
            r@ == self@.connected(members@),
    {
        let mut out: Vec<u64> = Vec::new();
        let mut i: usize = 0;
        while i < members.len()
            invariant
                i <= members@.len(),
                self@.orderly(),
                out@ == self@.connected(members@.take(i as int)),
                self@.receivers == self.receivers@,
            decreases members@.len() - i,
        {
            let r: RxRef = members[i];
            proof {
                let next = members@.take(i + 1);
                assert(next.drop_last() =~= members@.take(i as int));
                assert(next.last() == r);
            }
            if self.live(r) {
                out.push(self.receivers[r.idx].uid);
            }
            i = i + 1;
        }
        assert(members@.take(i as int) =~= members@);
        out
    }
}

/// How a receiver does.
pub struct RxStats {
    /// Receivers that it has a pair model with.
    pub peers: usize,
    /// What its sync observations were worth; asking fades it.
    pub score: Score,
    /// Its residual scatter puts it out of solves.
    pub quarantined: bool,
}

/// Taken slots in a list.
pub open spec fn live_among(slots: Seq<SlotView>) -> nat
    decreases slots.len(),
{
    if slots.len() == 0 {
        0
    } else {
        live_among(slots.drop_last()) + if slots.last().alive {
            1nat
        } else {
            0
        }
    }
}

impl<M> StateView<M> {
    /// The slots that `rx` has a model towards.
    pub open spec fn peers(self, rx: usize) -> Set<usize> {
        Set::new(|b: usize| self.pairs.contains_key((rx, b)))
    }

    /// The state once `r` has asked how it does.
    pub open spec fn asked(self, r: RxRef) -> StateView<M> {
        if self.live(r) {
            let slot = self.slots[r.idx as int];
            StateView {
                slots: self.slots.update(
                    r.idx as int,
                    SlotView { score: slot.score.quarter(), ..slot },
                ),
                ..self
            }
        } else {
            self
        }
    }

    /// `st` is how slot `rx` does.
    pub open spec fn stats_are(self, rx: usize, st: RxStats) -> bool {
        let slot = self.slots[rx as int];
        &&& st.peers == self.peers(rx).len()
        &&& st.score == slot.score
        &&& st.quarantined == slot.bias.quarantined()
    }

    /// How many receivers are connected.
    pub open spec fn live_count(self) -> nat {
        live_among(self.slots)
    }

    /// The slots of those of `members` that are still connected, in order.
    pub open spec fn seats(self, members: Seq<RxRef>) -> Seq<usize>
        decreases members.len(),
    {
        if members.len() == 0 {
            Seq::empty()
        } else {
            let head = self.seats(members.drop_last());
            if self.live(members.last()) {
                head.push(members.last().idx)
            } else {
                head
            }
        }
    }

    /// The serials of those of `members` that are still connected, in order.
    pub open spec fn connected(self, members: Seq<RxRef>) -> Seq<u64>
        decreases members.len(),
    {
        if members.len() == 0 {
            Seq::empty()
        } else {
            let head = self.connected(members.drop_last());
            if self.live(members.last()) {
                head.push(self.receivers[members.last().idx as int].uid)
            } else {
                head
            }
        }
    }
}

/// The slots of `t` are held by whoever holds those of `s`.
pub open spec fn same_seats<M>(s: StateView<M>, t: StateView<M>) -> bool {
    &&& s.slots.len() == t.slots.len()
    &&& forall|i: int|
        0 <= i < s.slots.len() ==> (#[trigger] t.slots[i]).alive == s.slots[i].alive && t.slots[i].gen
            == s.slots[i].gen
    &&& t.receivers == s.receivers
    &&& t.free == s.free
    &&& t.by_user == s.by_user
    &&& t.reference == s.reference
}

/// With nobody coming or going, order is a matter of the rest.
pub proof fn lemma_same_seats<M>(s: StateView<M>, t: StateView<M>)
    requires
        s.orderly(),
        same_seats(s, t),
    ensures
        t.slots_orderly(),
        t.users_orderly(),
        forall|i: usize| #[trigger] t.alive(i) == s.alive(i),
        forall|r: RxRef| #[trigger] t.live(r) == s.live(r),
{
    assert forall|i: usize| #[trigger] t.alive(i) == s.alive(i) by {
        if i < s.slots.len() {
            assert(t.slots[i as int].alive == s.slots[i as int].alive);
        }
    }
    assert forall|i: int| 0 <= i < t.free.len() implies #[trigger] t.free[i] < t.slots.len()
        && !t.alive(t.free[i]) by {
        assert(s.free[i] < s.slots.len());
    }
    assert forall|i: usize| i < t.slots.len() && !(#[trigger] t.alive(i)) implies t.free.contains(
        i,
    ) by {
        assert(!s.alive(i));
    }
    assert forall|i: usize| #[trigger] t.alive(i) implies t.by_user.contains_key(
        t.receivers[i as int].user@,
    ) && t.by_user[t.receivers[i as int].user@] == i by {
        assert(s.alive(i));
    }
}

/// What a change of the slots' own counts cannot upset.
pub proof fn lemma_same_standing<M>(s: StateView<M>, t: StateView<M>)
    requires
        s.orderly(),
        same_seats(s, t),
        forall|k: (usize, usize)| #[trigger] t.pairs.contains_key(k) ==> s.pairs.contains_key(k),
        t.syncpoints == s.syncpoints,
        t.groups == s.groups,
        t.ac_log == s.ac_log,
        t.tracks == s.tracks,
        t.alts_ft == s.alts_ft,
        forall|i: int| 0 <= i < t.slots.len() ==> (#[trigger] t.slots[i]).is_fair(),
    ensures
        t.orderly(),
{
    lemma_same_seats(s, t);
    assert forall|a: usize, b: usize| #[trigger] t.pairs.contains_key((a, b)) implies a != b
        && t.alive(a) && t.alive(b) by {
        assert(s.pairs.contains_key((a, b)));
    }
}

} // verus!
