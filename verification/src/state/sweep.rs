//! Groups whose window has passed.

use vstd::prelude::*;
use crate::clock::age_of;
#[allow(unused_imports)]
use crate::clock::age;
use crate::cluster::{elect, members, MIN_RECEIVERS};
#[allow(unused_imports)]
use crate::cluster::{is_elected, members_of};
use crate::state::{Entry, Group, State, SyncPoint};
#[allow(unused_imports)]
use crate::state::intake::lemma_reports_orderly;
#[allow(unused_imports)]
use crate::state::laws::{is_held_by, law_only_the_connected_count};
#[allow(unused_imports)]
use crate::state::{GroupView, RxRef, StateView, SyncPointView};
use crate::rows::Choice;
#[allow(unused_imports)]
use crate::rows::{distinct_keys, kept, map_of, row_views};

verus! {

/// How long a sync pair waits for reporters: 4 s.
pub const SYNC_LIFE_NS: u64 = 4_000_000_000;

/// The sync pairs that still wait for reporters.
pub struct Waiting {
    pub now: u64,
}

impl Choice<(String, String), SyncPoint> for Waiting {
    open spec fn picks(&self, k: (Seq<char>, Seq<char>), w: SyncPointView) -> bool {
        age(self.now, w.created) < SYNC_LIFE_NS
    }

    fn check(&self, k: &(String, String), w: &SyncPoint) -> (r: bool) {
        age_of(self.now, w.created) < SYNC_LIFE_NS
    }
}

/// The groups whose window has not passed.
pub struct Gathering {
    pub now: u64,
    pub window: u64,
}

impl Choice<String, Group> for Gathering {
    open spec fn picks(&self, k: Seq<char>, w: GroupView) -> bool {
        age(self.now, w.created) < self.window
    }

    fn check(&self, k: &String, w: &Group) -> (r: bool) {
        age_of(self.now, w.created) < self.window
    }
}

impl<M> StateView<M> {
    /// The state without the sync pairs whose time is up and the groups whose
    /// window has passed.
    pub open spec fn swept(self, now: u64, window: u64) -> StateView<M> {
        StateView {
            syncpoints: kept(
                self.syncpoints,
                |k: (Seq<char>, Seq<char>), w: SyncPointView| age(now, w.created) < SYNC_LIFE_NS,
            ),
            groups: kept(self.groups, |k: Seq<char>, w: GroupView| age(now, w.created) < window),
            ..self
        }
    }

    /// The groups whose window has passed.
    pub open spec fn ready(self, now: u64, window: u64) -> Map<Seq<char>, GroupView> {
        kept(self.groups, |k: Seq<char>, w: GroupView| age(now, w.created) >= window)
    }

    /// Of some entries, those of connections that still stand.
    pub open spec fn current(self, entries: Seq<Entry>) -> Seq<Entry>
        decreases entries.len(),
    {
        if entries.len() == 0 {
            Seq::empty()
        } else {
            let head = self.current(entries.drop_last());
            if self.live(entries.last().rx) {
                head.push(entries.last())
            } else {
                head
            }
        }
    }
}

/// How the receivers of one group are to be solved.
pub struct Plan {
    /// The slots of those who heard the frame and are still connected, each
    /// once.
    pub members: Vec<usize>,
    /// What they heard.
    pub heard: Vec<Entry>,
    /// Their serials.
    pub recipients: Vec<u64>,
    /// Whose clock the solve uses.
    pub reference: usize,
}

/// `r` is how the receivers of a group are to be solved.
pub open spec fn is_plan<M>(
    s: StateView<M>,
    entries: Seq<Entry>,
    usable: Seq<(usize, usize)>,
    r: Option<Plan>,
) -> bool {
    match r {
        Some(p) => {
            &&& p.members@ == s.seats(members_of(entries))
            &&& p.members@.len() >= MIN_RECEIVERS
            &&& p.heard@ == s.current(entries)
            &&& p.recipients@ == s.connected(members_of(entries))
            &&& is_elected(p.members@, usable, p.reference)
        },
        None => s.seats(members_of(entries)).len() < MIN_RECEIVERS,
    }
}

/// A group is solved where four of its connections or more still stand, and only
/// so: with those, with what they heard and no one else, for them alone, and on
/// the clock of one of them.
pub proof fn law_what_a_group_is_solved_with<M>(
    s: StateView<M>,
    entries: Seq<Entry>,
    usable: Seq<(usize, usize)>,
    r: Option<Plan>,
    i: int,
)
    requires
        is_plan(s, entries, usable, r),
    ensures
        ({
            let stand = members_of(entries).filter(|x: RxRef| is_held_by(s.slots, x));
            &&& r is Some <==> stand.len() >= 4
            &&& r matches Some(p) ==> {
                &&& p.members@.len() == stand.len()
                &&& p.recipients@.len() == stand.len()
                &&& 0 <= i < stand.len() ==> p.members@[i] == stand[i].idx && p.recipients@[i]
                    == s.receivers[stand[i].idx as int].uid
                &&& p.heard@ == entries.filter(|x: Entry| is_held_by(s.slots, x.rx))
                &&& p.members@.contains(p.reference)
            }
        }),
{
    law_only_the_connected_count(s, entries, members_of(entries));
}

impl<M> State<M> {
    /// Drops sync pairs whose time is up, and hands out the groups whose window
    /// has passed, each under its frame.
    pub fn sweep(&mut self, now: u64, window: u64) -> (r: Vec<(String, Group)>)
        requires
            old(self)@.orderly(),
        ensures
            final(self)@ == old(self)@.swept(now, window),
            final(self)@.orderly(),
            distinct_keys(row_views(r@)),
            map_of(row_views(r@)) == old(self)@.ready(now, window),
    {
        let ghost before = self@;
        self.syncpoints.retain(&Waiting { now });
        let out = self.groups.part(&Gathering { now, window });
        proof {
            let after = before.swept(now, window);
            assert(self.syncpoints@ =~= after.syncpoints);
            assert(self.groups@ =~= after.groups);
            assert(self@ =~= after);
            lemma_reports_orderly(before, after);
            assert(map_of(row_views(out@)) =~= before.ready(now, window));
        }
        out
    }

    /// The entries of those that are still connected.
    fn current_of(&self, entries: &Vec<Entry>) -> (r: Vec<Entry>)
        ensures
            r@ == self@.current(entries@),
    {
        let mut out: Vec<Entry> = Vec::new();
        let mut i: usize = 0;
        while i < entries.len()
            invariant
                i <= entries@.len(),
                out@ == self@.current(entries@.take(i as int)),
            decreases entries@.len() - i,
        {
            let e: Entry = entries[i];
            proof {
                let next = entries@.take(i + 1);
                assert(next.drop_last() =~= entries@.take(i as int));
                assert(next.last() == e);
            }
            if self.live(e.rx) {
                out.push(e);
            }
            i = i + 1;
        }
        assert(entries@.take(i as int) =~= entries@);
        out
    }

    /// Who of a group is still connected, what they heard, who gets the result,
    /// and whose clock it is solved on; nothing where they are too few. `usable`
    /// lists the pairs of members whose model is usable, from the first to the
    /// second.
    pub fn plan(&self, g: &Group, usable: &Vec<(usize, usize)>) -> (r: Option<Plan>)
        requires
            self@.orderly(),
        ensures
            match r {
                Some(p) => {
                    &&& p.members@ == self@.seats(members_of(g.entries@))
                    &&& p.members@.len() >= MIN_RECEIVERS
                    &&& p.heard@ == self@.current(g.entries@)
                    &&& p.recipients@ == self@.connected(members_of(g.entries@))
                    &&& is_elected(p.members@, usable@, p.reference)
                    &&& p.members@.contains(p.reference)
                    &&& self@.alive(p.reference)
                },
                None => self@.seats(members_of(g.entries@)).len() < MIN_RECEIVERS,
            },
            is_plan(self@, g.entries@, usable@, r),
    {
        let hearers = members(&g.entries);
        let list = self.present(&hearers);
        if list.len() < MIN_RECEIVERS {
            return None;
        }
        let heard = self.current_of(&g.entries);
        let recipients = self.recipients(&hearers);
        let reference: usize = elect(&list, usable);
        proof {
            lemma_seats_alive(self@, hearers@);
        }
        Some(Plan { members: list, heard, recipients, reference })
    }
}

/// The slots of those still connected are taken.
pub proof fn lemma_seats_alive<M>(s: StateView<M>, members: Seq<RxRef>)
    ensures
        forall|i: int|
            0 <= i < s.seats(members).len() ==> s.alive(#[trigger] s.seats(members)[i]),
    decreases members.len(),
{
    if members.len() > 0 {
        lemma_seats_alive(s, members.drop_last());
        let head = s.seats(members.drop_last());
        let all = s.seats(members);
        assert forall|i: int| 0 <= i < all.len() implies s.alive(#[trigger] all[i]) by {
            if i < head.len() {
                assert(all[i] == head[i]);
            }
        }
    }
}

} // verus!
