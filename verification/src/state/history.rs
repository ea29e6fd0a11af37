//! Receivers coming and going, from the start of a shard.

use vstd::prelude::*;
#[allow(unused_imports)]
use crate::state::slots::{lemma_added_orderly, lemma_removed_orderly, live_among};
#[allow(unused_imports)]
use crate::state::{ReceiverInfo, RxRef, SlotView, StateView};

verus! {

/// A receiver connects, or a connection ends.
pub enum Move {
    Add(ReceiverInfo),
    Remove(RxRef),
}

/// A shard, the references that it gave out, and how many receivers were
/// connected at most.
#[verifier::ext_equal]
pub struct History<M> {
    pub state: StateView<M>,
    pub issued: Seq<RxRef>,
    pub most: nat,
}

impl<M> StateView<M> {
    /// The reference that `info` gets.
    pub open spec fn reference_for(self, info: ReceiverInfo) -> RxRef {
        self.added(info).holder(self.slot_for(info))
    }

    /// `m` fits: a slot that is handed out again has a generation left, and a
    /// new slot has a number.
    pub open spec fn has_room(self, m: Move) -> bool {
        match m {
            Move::Add(info) => {
                let base = self.cleared(info.user@);
                if base.free.len() > 0 {
                    base.slots[base.next_slot()].gen < u32::MAX
                } else {
                    base.slots.len() < usize::MAX
                }
            },
            Move::Remove(_) => true,
        }
    }
}

impl<M> History<M> {
    /// What comes of `m`.
    pub open spec fn moved(self, m: Move) -> History<M> {
        match m {
            Move::Add(info) => {
                let t = self.state.added(info);
                History {
                    state: t,
                    issued: self.issued.push(self.state.reference_for(info)),
                    most: if t.live_count() > self.most {
                        t.live_count()
                    } else {
                        self.most
                    },
                }
            },
            Move::Remove(r) => History { state: self.state.removed(r), ..self },
        }
    }
}

/// A new shard after `moves`.
pub open spec fn after<M>(
    shard_id: usize,
    mlat_adsb: bool,
    emit_filtered: bool,
    moves: Seq<Move>,
) -> History<M>
    decreases moves.len(),
{
    if moves.len() == 0 {
        History {
            state: StateView::empty(shard_id, mlat_adsb, emit_filtered),
            issued: Seq::empty(),
            most: 0,
        }
    } else {
        after::<M>(shard_id, mlat_adsb, emit_filtered, moves.drop_last()).moved(moves.last())
    }
}

proof fn lemma_live_bound(slots: Seq<SlotView>)
    ensures
        live_among(slots) <= slots.len(),
        (forall|i: int| 0 <= i < slots.len() ==> (#[trigger] slots[i]).alive) ==> live_among(slots)
            == slots.len(),
    decreases slots.len(),
{
    if slots.len() > 0 {
        let rest = slots.drop_last();
        lemma_live_bound(rest);
        if forall|i: int| 0 <= i < slots.len() ==> (#[trigger] slots[i]).alive {
            assert forall|i: int| 0 <= i < rest.len() implies (#[trigger] rest[i]).alive by {
                assert(rest[i] == slots[i]);
            }
            assert(slots[slots.len() - 1].alive);
        }
    }
}

spec fn is_sound<M>(h: History<M>) -> bool {
    &&& h.state.orderly()
    &&& h.state.slots.len() == h.most
    &&& h.issued.no_duplicates()
    &&& forall|k: int|
        0 <= k < h.issued.len() ==> (#[trigger] h.issued[k]).idx < h.state.slots.len()
            && h.issued[k].gen <= h.state.slots[h.issued[k].idx as int].gen
}

proof fn lemma_remove<M>(h: History<M>, r: RxRef)
    requires
        is_sound(h),
    ensures
        is_sound(h.moved(Move::Remove(r))),
{
    lemma_removed_orderly(h.state, r);
}

proof fn lemma_add<M>(h: History<M>, info: ReceiverInfo)
    requires
        is_sound(h),
        h.state.has_room(Move::Add(info)),
    ensures
        is_sound(h.moved(Move::Add(info))),
        !h.issued.contains(h.state.reference_for(info)),
{
    let s = h.state;
    let base = s.cleared(info.user@);
    let t = s.added(info);
    let i = s.slot_for(info);
    let r = s.reference_for(info);
    if s.by_user.contains_key(info.user@) {
        lemma_removed_orderly(s, s.holder(s.by_user[info.user@]));
    }
    lemma_added_orderly(s, info);
    assert(base.orderly());
    assert forall|k: int| 0 <= k < s.slots.len() implies (#[trigger] base.slots[k]).gen
        == s.slots[k].gen by {}
    if base.free.len() > 0 {
        assert(base.free[base.free.len() - 1] == i);
        assert(t.slots.len() == s.slots.len());
        assert(t.slots[i as int].gen == s.slots[i as int].gen + 1);
    } else {
        assert forall|k: int| 0 <= k < base.slots.len() implies (#[trigger] base.slots[k]).alive by {
            if !base.slots[k].alive {
                assert(!base.alive(k as usize));
                assert(base.free.contains(k as usize));
            }
        }
        assert forall|k: int| 0 <= k < t.slots.len() implies (#[trigger] t.slots[k]).alive by {
            if k < base.slots.len() {
                assert(t.slots[k] == base.slots[k]);
            }
        }
    }
    lemma_live_bound(t.slots);
    if h.issued.contains(r) {
        let k = choose|k: int| 0 <= k < h.issued.len() && h.issued[k] == r;
        assert(h.issued[k].idx < s.slots.len());
    }
    let g = h.moved(Move::Add(info));
    assert forall|k: int| 0 <= k < g.issued.len() implies (#[trigger] g.issued[k]).idx
        < g.state.slots.len() && g.issued[k].gen <= g.state.slots[g.issued[k].idx as int].gen by {
        if k < h.issued.len() {
            assert(g.issued[k] == h.issued[k]);
        }
    }
    assert(g.issued.no_duplicates()) by {
        assert forall|a: int, b: int|
            0 <= a < g.issued.len() && 0 <= b < g.issued.len() && a != b implies g.issued[a]
            != g.issued[b] by {
            if a == h.issued.len() {
                assert(h.issued.contains(h.issued[b]));
            } else if b == h.issued.len() {
                assert(h.issued.contains(h.issued[a]));
            }
        }
    }
}

/// Whoever comes and goes: no reference is given out twice, the newest one is
/// the current holder of its slot, no two connected receivers have the same
/// name, and there are as many slots as receivers were ever connected at once.
pub proof fn law_references_never_repeat<M>(
    shard_id: usize,
    mlat_adsb: bool,
    emit_filtered: bool,
    moves: Seq<Move>,
)
    requires
        forall|k: int|
            0 <= k < moves.len() ==> after::<M>(
                shard_id,
                mlat_adsb,
                emit_filtered,
                moves.take(k),
            ).state.has_room(#[trigger] moves[k]),
    ensures
        ({
            let h = after::<M>(shard_id, mlat_adsb, emit_filtered, moves);
            &&& h.state.orderly()
            &&& h.issued.no_duplicates()
            &&& h.state.receivers.len() == h.most
            &&& moves.len() > 0 && moves.last() is Add ==> h.state.live(h.issued.last())
            &&& forall|a: usize, b: usize|
                #![trigger h.state.alive(a), h.state.alive(b)]
                h.state.alive(a) && h.state.alive(b) && h.state.receivers[a as int].user@
                    == h.state.receivers[b as int].user@ ==> a == b
        }),
{
    lemma_sound::<M>(shard_id, mlat_adsb, emit_filtered, moves);
    let h = after::<M>(shard_id, mlat_adsb, emit_filtered, moves);
    if moves.len() > 0 {
        let rest = moves.drop_last();
        let before = after::<M>(shard_id, mlat_adsb, emit_filtered, rest);
        assert(moves.take(moves.len() - 1) =~= rest);
        assert(before.state.has_room(moves[moves.len() - 1]));
        lemma_prefix::<M>(shard_id, mlat_adsb, emit_filtered, moves);
        lemma_sound::<M>(shard_id, mlat_adsb, emit_filtered, rest);
        if let Move::Add(info) = moves.last() {
            lemma_added_orderly(before.state, info);
        }
    }
}

proof fn lemma_prefix<M>(
    shard_id: usize,
    mlat_adsb: bool,
    emit_filtered: bool,
    moves: Seq<Move>,
)
    requires
        moves.len() > 0,
        forall|k: int|
            0 <= k < moves.len() ==> after::<M>(
                shard_id,
                mlat_adsb,
                emit_filtered,
                moves.take(k),
            ).state.has_room(#[trigger] moves[k]),
    ensures
        forall|k: int|
            0 <= k < moves.drop_last().len() ==> after::<M>(
                shard_id,
                mlat_adsb,
                emit_filtered,
                moves.drop_last().take(k),
            ).state.has_room(#[trigger] moves.drop_last()[k]),
{
    let rest = moves.drop_last();
    assert forall|k: int| 0 <= k < rest.len() implies after::<M>(
        shard_id,
        mlat_adsb,
        emit_filtered,
        rest.take(k),
    ).state.has_room(#[trigger] rest[k]) by {
        assert(rest[k] == moves[k]);
        assert(rest.take(k) =~= moves.take(k));
    }
}

proof fn lemma_sound<M>(shard_id: usize, mlat_adsb: bool, emit_filtered: bool, moves: Seq<Move>)
    requires
        forall|k: int|
            0 <= k < moves.len() ==> after::<M>(
                shard_id,
                mlat_adsb,
                emit_filtered,
                moves.take(k),
            ).state.has_room(#[trigger] moves[k]),
    ensures
        is_sound(after::<M>(shard_id, mlat_adsb, emit_filtered, moves)),
    decreases moves.len(),
{
    if moves.len() > 0 {
        let rest = moves.drop_last();
        lemma_prefix::<M>(shard_id, mlat_adsb, emit_filtered, moves);
        lemma_sound::<M>(shard_id, mlat_adsb, emit_filtered, rest);
        let h = after::<M>(shard_id, mlat_adsb, emit_filtered, rest);
        assert(moves.take(moves.len() - 1) =~= rest);
        assert(h.state.has_room(moves[moves.len() - 1]));
        match moves.last() {
            Move::Add(info) => {
                lemma_add(h, info);
            },
            Move::Remove(r) => {
                lemma_remove(h, r);
            },
        }
    }
}

} // verus!
