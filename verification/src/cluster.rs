//! From the receivers of one frame to the transmissions that they heard.
//!
//! The reference receiver is elected per frame: those who heard it are
//! neighbours, and the member with the most usable models towards it serves
//! them best. Arrival times are brought to its clock, directly or through
//! another member, and fall into clusters, one per transmission.

use vstd::prelude::*;
use crate::state::{Entry, RxRef};

verus! {

/// Arrivals of one transmission lie this close together: 2.5 ms.
pub const CLUSTER_SPAN_FS: i128 = 2_500_000_000_000;

/// Receivers that a solve takes at least.
pub const MIN_RECEIVERS: usize = 4;

/// A time on some clock with its error (1 sigma).
#[derive(Clone, Copy, PartialEq, Eq, Debug, Structural)]
pub struct Timed {
    pub t_fs: i128,
    pub sigma_fs: i128,
}

/// When a receiver heard a frame, by the reference clock.
#[derive(Clone, Copy, PartialEq, Eq, Debug, Structural)]
pub struct Arrival {
    pub rx: usize,
    pub t_fs: i128,
    pub sigma_fs: i128,
    /// Output clock when it came in.
    pub at: i64,
}

/// The connections in a list of entries, each where it first occurs.
pub open spec fn members_of(entries: Seq<Entry>) -> Seq<RxRef>
    decreases entries.len(),
{
    if entries.len() == 0 {
        Seq::empty()
    } else {
        let head = members_of(entries.drop_last());
        if head.contains(entries.last().rx) {
            head
        } else {
            head.push(entries.last().rx)
        }
    }
}

/// Every connection is listed, once.
pub proof fn lemma_members(entries: Seq<Entry>)
    ensures
        members_of(entries).no_duplicates(),
        members_of(entries).len() <= entries.len(),
        forall|i: int|
            0 <= i < entries.len() ==> members_of(entries).contains((#[trigger] entries[i]).rx),
        forall|x: RxRef| #[trigger]
            members_of(entries).contains(x) ==> exists|i: int|
                0 <= i < entries.len() && (#[trigger] entries[i]).rx == x,
    decreases entries.len(),
{
    if entries.len() > 0 {
        let rest = entries.drop_last();
        lemma_members(rest);
        let head = members_of(rest);
        let all = members_of(entries);
        assert forall|x: RxRef| head.contains(x) implies #[trigger] all.contains(x) by {
            let k = choose|k: int| 0 <= k < head.len() && head[k] == x;
            assert(all[k] == x);
        }
        assert(all.contains(entries.last().rx)) by {
            if !head.contains(entries.last().rx) {
                assert(all[all.len() - 1] == entries.last().rx);
            }
        }
        assert forall|i: int| 0 <= i < entries.len() implies all.contains(
            (#[trigger] entries[i]).rx,
        ) by {
            if i < rest.len() {
                assert(rest[i] == entries[i]);
                assert(head.contains(rest[i].rx));
            }
        }
        assert forall|x: RxRef| #[trigger] all.contains(x) implies exists|i: int|
            0 <= i < entries.len() && (#[trigger] entries[i]).rx == x by {
            if head.contains(x) {
                let i = choose|i: int| 0 <= i < rest.len() && (#[trigger] rest[i]).rx == x;
                assert(entries[i].rx == x);
            } else {
                let k = choose|k: int| 0 <= k < all.len() && all[k] == x;
                if k < head.len() {
                    assert(head[k] == x);
                }
                assert(entries[entries.len() - 1].rx == x);
            }
        }
    }
}

/// Whether `list` has `x`.
pub(crate) fn lists_slot(list: &Vec<usize>, x: usize) -> (r: bool)
    ensures
        r == list@.contains(x),
{
    let mut i: usize = 0;
    while i < list.len()
        invariant
            i <= list@.len(),
            forall|k: int| 0 <= k < i ==> list@[k] != x,
        decreases list@.len() - i,
    {
        if list[i] == x {
            return true;
        }
        i = i + 1;
    }
    false
}

/// Whether `list` has `x`.
fn lists_holder(list: &Vec<RxRef>, x: RxRef) -> (r: bool)
    ensures
        r == list@.contains(x),
{
    let mut i: usize = 0;
    while i < list.len()
        invariant
            i <= list@.len(),
            forall|k: int| 0 <= k < i ==> list@[k] != x,
        decreases list@.len() - i,
    {
        if list[i] == x {
            return true;
        }
        i = i + 1;
    }
    false
}

/// The connections in a list of entries, each where it first occurs.
pub fn members(entries: &Vec<Entry>) -> (r: Vec<RxRef>)
    ensures
        r@ == members_of(entries@),
{
    let mut out: Vec<RxRef> = Vec::new();
    let mut i: usize = 0;
    while i < entries.len()
        invariant
            i <= entries@.len(),
            out@ == members_of(entries@.take(i as int)),
        decreases entries@.len() - i,
    {
        let rx: RxRef = entries[i].rx;
        proof {
            let next = entries@.take(i + 1);
            assert(next.drop_last() =~= entries@.take(i as int));
            assert(next.last().rx == rx);
        }
        if !lists_holder(&out, rx) {
            out.push(rx);
        }
        i = i + 1;
    }
    assert(entries@.take(i as int) =~= entries@);
    out
}

/// Members of `among` whose model towards `cand` is usable.
pub open spec fn support(among: Seq<usize>, cand: usize, usable: Seq<(usize, usize)>) -> nat
    decreases among.len(),
{
    if among.len() == 0 {
        0
    } else {
        support(among.drop_last(), cand, usable) + if among.last() != cand && usable.contains(
            (among.last(), cand),
        ) {
            1nat
        } else {
            0
        }
    }
}

/// Member `i` has the most support, and more than any member behind it.
pub open spec fn elected_at(members: Seq<usize>, usable: Seq<(usize, usize)>, i: int) -> bool {
    &&& 0 <= i < members.len()
    &&& forall|j: int|
        0 <= j < members.len() ==> support(members, #[trigger] members[j], usable) <= support(
            members,
            members[i],
            usable,
        )
    &&& forall|j: int|
        i < j < members.len() ==> support(members, #[trigger] members[j], usable) < support(
            members,
            members[i],
            usable,
        )
}

/// The elected reference: the last of the members with the most support.
pub open spec fn is_elected(members: Seq<usize>, usable: Seq<(usize, usize)>, r: usize) -> bool {
    exists|i: int| #[trigger] elected_at(members, usable, i) && members[i] == r
}

fn lists_pair(list: &Vec<(usize, usize)>, a: usize, b: usize) -> (r: bool)
    ensures
        r == list@.contains((a, b)),
{
    let mut i: usize = 0;
    while i < list.len()
        invariant
            i <= list@.len(),
            forall|k: int| 0 <= k < i ==> list@[k] != (a, b),
        decreases list@.len() - i,
    {
        if list[i].0 == a && list[i].1 == b {
            assert(list@[i as int] == (a, b));
            return true;
        }
        i = i + 1;
    }
    false
}

fn count_support(members: &Vec<usize>, cand: usize, usable: &Vec<(usize, usize)>) -> (r: usize)
    ensures
        r == support(members@, cand, usable@),
{
    let mut n: usize = 0;
    let mut i: usize = 0;
    while i < members.len()
        invariant
            i <= members@.len(),
            n <= i,
            n == support(members@.take(i as int), cand, usable@),
        decreases members@.len() - i,
    {
        let other: usize = members[i];
        proof {
            let next = members@.take(i + 1);
            assert(next.drop_last() =~= members@.take(i as int));
            assert(next.last() == other);
        }
        if other != cand && lists_pair(usable, other, cand) {
            n = n + 1;
        }
        i = i + 1;
    }
    assert(members@.take(i as int) =~= members@);
    n
}

/// Elects the reference among `members`; `usable` lists the pairs whose model
/// is usable, from the first to the second.
pub fn elect(members: &Vec<usize>, usable: &Vec<(usize, usize)>) -> (r: usize)
    requires
        members@.len() > 0,
    ensures
        is_elected(members@, usable@, r),
{
    let mut best: usize = 0;
    let mut most: usize = count_support(members, members[0], usable);
    let mut i: usize = 1;
    while i < members.len()
        invariant
            1 <= i <= members@.len(),
            best < i,
            most == support(members@, members@[best as int], usable@),
            forall|j: int|
                0 <= j < i ==> support(members@, #[trigger] members@[j], usable@) <= most,
            forall|j: int|
                best < j < i ==> support(members@, #[trigger] members@[j], usable@) < most,
        decreases members@.len() - i,
    {
        let n: usize = count_support(members, members[i], usable);
        if n >= most {
            best = i;
            most = n;
        }
        i = i + 1;
    }
    assert(elected_at(members@, usable@, best as int));
    members[best]
}

/// There is one elected reference.
pub proof fn law_one_reference(members: Seq<usize>, usable: Seq<(usize, usize)>, a: usize, b: usize)
    requires
        is_elected(members, usable, a),
        is_elected(members, usable, b),
    ensures
        a == b,
{
    let i = choose|i: int| #[trigger] elected_at(members, usable, i) && members[i] == a;
    let j = choose|j: int| #[trigger] elected_at(members, usable, j) && members[j] == b;
    assert(support(members, members[i], usable) <= support(members, members[j], usable));
    assert(support(members, members[j], usable) <= support(members, members[i], usable));
}

/// Members other than `rx` and the reference: the ways around.
pub open spec fn relays_of(members: Seq<usize>, rx: usize, reference: usize) -> Seq<usize>
    decreases members.len(),
{
    if members.len() == 0 {
        Seq::empty()
    } else {
        let head = relays_of(members.drop_last(), rx, reference);
        if members.last() == rx || members.last() == reference {
            head
        } else {
            head.push(members.last())
        }
    }
}

/// Members other than `rx` and the reference, in order.
pub fn relays(members: &Vec<usize>, rx: usize, reference: usize) -> (r: Vec<usize>)
    ensures
        r@ == relays_of(members@, rx, reference),
{
    let mut out: Vec<usize> = Vec::new();
    let mut i: usize = 0;
    while i < members.len()
        invariant
            i <= members@.len(),
            out@ == relays_of(members@.take(i as int), rx, reference),
        decreases members@.len() - i,
    {
        let h: usize = members[i];
        proof {
            let next = members@.take(i + 1);
            assert(next.drop_last() =~= members@.take(i as int));
            assert(next.last() == h);
        }
        if h != rx && h != reference {
            out.push(h);
        }
        i = i + 1;
    }
    assert(members@.take(i as int) =~= members@);
    out
}

/// The way around with the least error; the first of several.
pub open spec fn best_of(ways: Seq<Timed>) -> Option<Timed>
    decreases ways.len(),
{
    if ways.len() == 0 {
        None
    } else {
        let w = ways.last();
        match best_of(ways.drop_last()) {
            None => Some(w),
            Some(b) => if w.sigma_fs < b.sigma_fs {
                Some(w)
            } else {
                Some(b)
            },
        }
    }
}

/// No way around has less error than the best one.
pub proof fn law_best_is_least(ways: Seq<Timed>)
    ensures
        ways.len() > 0 ==> best_of(ways) is Some && ways.contains(best_of(ways)->0),
        forall|i: int|
            0 <= i < ways.len() ==> best_of(ways)->0.sigma_fs <= (#[trigger] ways[i]).sigma_fs,
    decreases ways.len(),
{
    if ways.len() > 0 {
        let rest = ways.drop_last();
        law_best_is_least(rest);
        assert(ways[ways.len() - 1] == ways.last());
        if rest.len() > 0 {
            let k = choose|k: int| 0 <= k < rest.len() && rest[k] == best_of(rest)->0;
            assert(ways[k] == best_of(rest)->0);
        }
        assert forall|i: int| 0 <= i < ways.len() implies best_of(ways)->0.sigma_fs <= (
        #[trigger] ways[i]).sigma_fs by {
            if i < rest.len() {
                assert(rest[i] == ways[i]);
            }
        }
    }
}

fn best(ways: &Vec<Timed>) -> (r: Option<Timed>)
    ensures
        r == best_of(ways@),
{
    let mut found: Option<Timed> = None;
    let mut i: usize = 0;
    while i < ways.len()
        invariant
            i <= ways@.len(),
            found == best_of(ways@.take(i as int)),
        decreases ways@.len() - i,
    {
        let w: Timed = ways[i];
        proof {
            let next = ways@.take(i + 1);
            assert(next.drop_last() =~= ways@.take(i as int));
            assert(next.last() == w);
        }
        match found {
            None => {
                found = Some(w);
            },
            Some(b) => {
                if w.sigma_fs < b.sigma_fs {
                    found = Some(w);
                }
            },
        }
        i = i + 1;
    }
    assert(ways@.take(i as int) =~= ways@);
    found
}

/// When entry `e` was heard, by the reference clock. The reference's own time
/// stands as it is; any other is the direct conversion where there is one, else
/// the best way around. The error is never less than the receiver's jitter.
pub open spec fn settled(
    e: Entry,
    reference: usize,
    jitter_fs: i128,
    direct: Option<Timed>,
    around: Seq<Timed>,
) -> Option<Arrival> {
    let by_ref = if e.rx.idx == reference {
        Some(Timed { t_fs: e.t_fs, sigma_fs: jitter_fs })
    } else if direct is Some {
        direct
    } else {
        best_of(around)
    };
    match by_ref {
        None => None,
        Some(w) => Some(
            Arrival {
                rx: e.rx.idx,
                t_fs: w.t_fs,
                sigma_fs: if w.sigma_fs < jitter_fs {
                    jitter_fs
                } else {
                    w.sigma_fs
                },
                at: e.at,
            },
        ),
    }
}

/// When entry `e` was heard, by the reference clock.
pub fn settle(
    e: &Entry,
    reference: usize,
    jitter_fs: i128,
    direct: Option<Timed>,
    around: &Vec<Timed>,
) -> (r: Option<Arrival>)
    ensures
        r == settled(*e, reference, jitter_fs, direct, around@),
{
    let by_ref: Option<Timed> = if e.rx.idx == reference {
        Some(Timed { t_fs: e.t_fs, sigma_fs: jitter_fs })
    } else if direct.is_some() {
        direct
    } else {
        best(around)
    };
    match by_ref {
        None => None,
        Some(w) => Some(
            Arrival {
                rx: e.rx.idx,
                t_fs: w.t_fs,
                sigma_fs: if w.sigma_fs < jitter_fs {
                    jitter_fs
                } else {
                    w.sigma_fs
                },
                at: e.at,
            },
        ),
    }
}

/// Where `a` goes in a list in order of time: behind everything that is not
/// later.
pub open spec fn place(sorted: Seq<Arrival>, a: Arrival) -> int
    decreases sorted.len(),
{
    if sorted.len() == 0 || sorted.last().t_fs <= a.t_fs {
        sorted.len() as int
    } else {
        place(sorted.drop_last(), a)
    }
}

/// The arrivals in order of time; those at the same time as they came.
pub open spec fn in_order(s: Seq<Arrival>) -> Seq<Arrival>
    decreases s.len(),
{
    if s.len() == 0 {
        s
    } else {
        let head = in_order(s.drop_last());
        head.insert(place(head, s.last()), s.last())
    }
}

proof fn lemma_place(sorted: Seq<Arrival>, a: Arrival)
    ensures
        0 <= place(sorted, a) <= sorted.len(),
        place(sorted, a) > 0 ==> sorted[place(sorted, a) - 1].t_fs <= a.t_fs,
        forall|i: int| place(sorted, a) <= i < sorted.len() ==> (#[trigger] sorted[i]).t_fs > a.t_fs,
    decreases sorted.len(),
{
    if sorted.len() > 0 && sorted.last().t_fs > a.t_fs {
        lemma_place(sorted.drop_last(), a);
        assert forall|i: int| place(sorted, a) <= i < sorted.len() implies (
        #[trigger] sorted[i]).t_fs > a.t_fs by {
            if i < sorted.len() - 1 {
                assert(sorted.drop_last()[i] == sorted[i]);
            }
        }
    }
}

/// Times do not go back in `s`.
pub open spec fn ascending(s: Seq<Arrival>) -> bool {
    forall|i: int, j: int| 0 <= i <= j < s.len() ==> s[i].t_fs <= s[j].t_fs
}

/// Ordering keeps every arrival and puts the times in order.
pub proof fn law_order(s: Seq<Arrival>)
    ensures
        ascending(in_order(s)),
        in_order(s).to_multiset() == s.to_multiset(),
        in_order(s).len() == s.len(),
    decreases s.len(),
{
    broadcast use vstd::seq_lib::group_to_multiset_ensures;

    if s.len() > 0 {
        let rest = s.drop_last();
        law_order(rest);
        let head = in_order(rest);
        let a = s.last();
        let k = place(head, a);
        lemma_place(head, a);
        let all = head.insert(k, a);
        assert forall|i: int, j: int| 0 <= i <= j < all.len() implies all[i].t_fs <= all[j].t_fs by {
            let i0 = if i < k { i } else { i - 1 };
            let j0 = if j < k { j } else { j - 1 };
            if i != k && j != k {
                assert(head[i0].t_fs <= head[j0].t_fs);
            } else if i == k && j != k {
                assert(head[j0].t_fs > a.t_fs);
            } else if i != k {
                assert(head[i0].t_fs <= head[k - 1].t_fs);
            }
        }
        assert(s =~= rest.push(a));
        assert(all.to_multiset() =~= head.to_multiset().insert(a));
    }
}

/// Sorts arrivals by time.
fn sort(list: &Vec<Arrival>) -> (r: Vec<Arrival>)
    ensures
        r@ == in_order(list@),
{
    let mut out: Vec<Arrival> = Vec::new();
    let mut i: usize = 0;
    while i < list.len()
        invariant
            i <= list@.len(),
            out@.len() == i,
            out@ == in_order(list@.take(i as int)),
        decreases list@.len() - i,
    {
        let a: Arrival = list[i];
        let ghost head = out@;
        proof {
            let next = list@.take(i + 1);
            assert(next.drop_last() =~= list@.take(i as int));
            assert(next.last() == a);
        }
        let mut k: usize = out.len();
        assert(head.take(k as int) =~= head);
        while k > 0 && out[k - 1].t_fs > a.t_fs
            invariant
                k <= out@.len(),
                out@ == head,
                place(head.take(k as int), a) == place(head, a),
            decreases k,
        {
            assert(head.take(k as int).drop_last() =~= head.take(k - 1));
            k = k - 1;
        }
        assert(k == place(head, a));
        out.insert(k, a);
        i = i + 1;
    }
    assert(list@.take(i as int) =~= list@);
    out
}

/// How far from `j` on arrivals lie within the span of the first one.
pub open spec fn run(s: Seq<Arrival>, j: int) -> int
    decreases s.len() - j,
{
    if 0 <= j < s.len() && s[j].t_fs - s[0].t_fs <= CLUSTER_SPAN_FS {
        run(s, j + 1)
    } else {
        j
    }
}

/// A run ends where an arrival lies beyond the span of the first one.
pub proof fn lemma_run(s: Seq<Arrival>, j: int)
    requires
        0 <= j <= s.len(),
    ensures
        j <= run(s, j) <= s.len(),
        forall|i: int|
            j <= i < run(s, j) ==> (#[trigger] s[i]).t_fs - s[0].t_fs <= CLUSTER_SPAN_FS,
        run(s, j) < s.len() ==> s[run(s, j)].t_fs - s[0].t_fs > CLUSTER_SPAN_FS,
        j == 0 && s.len() > 0 ==> run(s, j) > 0,
    decreases s.len() - j,
{
    if j < s.len() && s[j].t_fs - s[0].t_fs <= CLUSTER_SPAN_FS {
        lemma_run(s, j + 1);
    }
}

/// The arrivals of each transmission: each cluster opens with the first
/// arrival that lies beyond the span of the one before.
pub open spec fn cut(s: Seq<Arrival>) -> Seq<Seq<Arrival>>
    decreases s.len(),
{
    if s.len() == 0 {
        Seq::empty()
    } else {
        proof {
            lemma_run(s, 0);
        }
        seq![s.take(run(s, 0))] + cut(s.skip(run(s, 0)))
    }
}

/// The clusters of converted arrivals; none where too few could be converted.
pub open spec fn clusters_of(conv: Seq<Arrival>) -> Seq<Seq<Arrival>> {
    if conv.len() < MIN_RECEIVERS {
        Seq::empty()
    } else {
        cut(in_order(conv))
    }
}

/// The clusters by their views.
pub open spec fn views(list: Seq<Vec<Arrival>>) -> Seq<Seq<Arrival>> {
    list.map_values(|v: Vec<Arrival>| v@)
}

/// Whether `b` lies within the span that `a` opens.
fn in_span(a: i128, b: i128) -> (r: bool)
    ensures
        r == (b - a <= CLUSTER_SPAN_FS),
{
    match b.checked_sub(a) {
        Some(d) => d <= CLUSTER_SPAN_FS,
        None => b < a,
    }
}

/// The clusters of converted arrivals.
pub fn clusters(conv: &Vec<Arrival>) -> (r: Vec<Vec<Arrival>>)
    ensures
        views(r@) == clusters_of(conv@),
{
    let mut out: Vec<Vec<Arrival>> = Vec::new();
    if conv.len() < MIN_RECEIVERS {
        assert(views(out@) =~= clusters_of(conv@));
        return out;
    }
    let list = sort(conv);
    let ghost s = list@;
    let mut i: usize = 0;
    assert(s.skip(0) =~= s);
    assert(views(out@) + cut(s.skip(0)) =~= cut(s));
    while i < list.len()
        invariant
            i <= list@.len(),
            s == list@,
            views(out@) + cut(s.skip(i as int)) == cut(s),
        decreases list@.len() - i,
    {
        let ghost rest = s.skip(i as int);
        let ghost made = views(out@);
        let mut cluster: Vec<Arrival> = Vec::new();
        let mut j: usize = i;
        proof {
            lemma_run(rest, 0);
        }
        while j < list.len() && in_span(list[i].t_fs, list[j].t_fs)
            invariant
                i <= j <= list@.len(),
                i < list@.len(),
                s == list@,
                rest == s.skip(i as int),
                cluster@ == rest.take(j - i),
                run(rest, j - i) == run(rest, 0),
            decreases list@.len() - j,
        {
            assert(rest[j - i] == s[j as int]);
            assert(rest[0] == s[i as int]);
            cluster.push(list[j]);
            assert(rest.take(j + 1 - i) =~= rest.take(j - i).push(rest[j - i]));
            j = j + 1;
        }
        proof {
            if j < s.len() {
                assert(rest[j - i] == s[j as int]);
                assert(rest[0] == s[i as int]);
            }
            assert(run(rest, 0) == j - i);
            assert(rest.skip(j - i) =~= s.skip(j as int));
            assert(cut(rest) == seq![rest.take(j - i)] + cut(s.skip(j as int)));
        }
        out.push(cluster);
        proof {
            assert(views(out@) =~= made.push(cluster@));
            assert(views(out@) + cut(s.skip(j as int)) =~= made + (seq![cluster@] + cut(
                s.skip(j as int),
            )));
        }
        i = j;
    }
    assert(s.skip(i as int) =~= Seq::<Arrival>::empty());
    assert(views(out@) + cut(s.skip(i as int)) =~= views(out@));
    out
}

/// The parts put back together.
pub open spec fn flat(parts: Seq<Seq<Arrival>>) -> Seq<Arrival>
    decreases parts.len(),
{
    if parts.len() == 0 {
        Seq::empty()
    } else {
        parts.first() + flat(parts.drop_first())
    }
}

/// Cutting loses nothing and moves nothing: every arrival is in one cluster,
/// no cluster is empty or longer than the span, and each opens beyond the span
/// of the one before.
pub proof fn law_cut(s: Seq<Arrival>)
    ensures
        flat(cut(s)) == s,
        forall|c: int|
            #![trigger cut(s)[c]]
            0 <= c < cut(s).len() ==> cut(s)[c].len() > 0 && forall|i: int|
                0 <= i < cut(s)[c].len() ==> (#[trigger] cut(s)[c][i]).t_fs - cut(s)[c][0].t_fs
                    <= CLUSTER_SPAN_FS,
        forall|c: int|
            #![trigger cut(s)[c]]
            0 < c < cut(s).len() ==> cut(s)[c][0].t_fs - cut(s)[c - 1][0].t_fs > CLUSTER_SPAN_FS,
        s.len() > 0 ==> cut(s).len() > 0 && cut(s)[0][0] == s[0],
    decreases s.len(),
{
    lemma_run(s, 0);
    if s.len() > 0 {
        let k = run(s, 0);
        let tail = s.skip(k);
        law_cut(tail);
        assert(cut(s) == seq![s.take(k)] + cut(tail));
        assert(cut(s).first() == s.take(k));
        assert(cut(s).drop_first() =~= cut(tail));
        assert(flat(cut(s)) =~= s);
        assert forall|c: int|
            #![trigger cut(s)[c]]
            0 <= c < cut(s).len() implies cut(s)[c].len() > 0 && forall|i: int|
                0 <= i < cut(s)[c].len() ==> (#[trigger] cut(s)[c][i]).t_fs - cut(s)[c][0].t_fs
                    <= CLUSTER_SPAN_FS by {
            if c > 0 {
                assert(cut(s)[c] == cut(tail)[c - 1]);
            }
        }
        assert forall|c: int|
            #![trigger cut(s)[c]]
            0 < c < cut(s).len() implies cut(s)[c][0].t_fs - cut(s)[c - 1][0].t_fs
            > CLUSTER_SPAN_FS by {
            assert(cut(s)[c] == cut(tail)[c - 1]);
            if c > 1 {
                assert(cut(s)[c - 1] == cut(tail)[c - 2]);
            } else {
                assert(tail[0] == s[k]);
            }
        }
    }
}

/// The clusters of enough arrivals hold exactly those arrivals.
pub proof fn law_clusters_partition(conv: Seq<Arrival>)
    requires
        conv.len() >= MIN_RECEIVERS,
    ensures
        flat(clusters_of(conv)).to_multiset() == conv.to_multiset(),
{
    law_order(conv);
    law_cut(in_order(conv));
}


/// The support of a candidate is how many other members have a usable model
/// towards it.
pub proof fn law_support_is_counted(among: Seq<usize>, cand: usize, usable: Seq<(usize, usize)>)
    ensures
        support(among, cand, usable) == among.filter(
            |m: usize| m != cand && usable.contains((m, cand)),
        ).len(),
    decreases among.len(),
{
    reveal(Seq::filter);
    if among.len() > 0 {
        law_support_is_counted(among.drop_last(), cand, usable);
    }
}

/// The elected reference is a member, no member has more support, and of those
/// with as much it is the last.
pub proof fn law_who_is_elected(
    members: Seq<usize>,
    usable: Seq<(usize, usize)>,
    r: usize,
    j: int,
)
    requires
        is_elected(members, usable, r),
        members.no_duplicates(),
    ensures
        members.contains(r),
        0 <= j < members.len() ==> support(members, members[j], usable) <= support(
            members,
            r,
            usable,
        ),
        0 <= j < members.len() && support(members, members[j], usable) == support(
            members,
            r,
            usable,
        ) ==> j <= members.index_of(r),
{
    let i = choose|i: int| #[trigger] elected_at(members, usable, i) && members[i] == r;
    assert(members[members.index_of(r)] == r);
}

/// The ways around are the other members, all of them.
pub proof fn law_who_can_relay(members: Seq<usize>, rx: usize, reference: usize)
    ensures
        relays_of(members, rx, reference) == members.filter(
            |m: usize| m != rx && m != reference,
        ),
    decreases members.len(),
{
    reveal(Seq::filter);
    if members.len() > 0 {
        law_who_can_relay(members.drop_last(), rx, reference);
    }
}

/// An entry keeps its receiver and the moment at which it came. The reference's
/// own time stands as it is; any other is the direct conversion, or without one
/// a way around with the least error, or nothing. Its error is the greater of
/// that and the receiver's own.
pub proof fn law_how_an_entry_is_settled(
    e: Entry,
    reference: usize,
    jitter_fs: i128,
    direct: Option<Timed>,
    around: Seq<Timed>,
    i: int,
)
    ensures
        ({
            let r = settled(e, reference, jitter_fs, direct, around);
            let a = r->0;
            &&& e.rx.idx == reference ==> r is Some && a.t_fs == e.t_fs && a.sigma_fs == jitter_fs
            &&& e.rx.idx != reference && direct is Some ==> r is Some && a.t_fs == direct->0.t_fs
                && a.sigma_fs == (if direct->0.sigma_fs > jitter_fs {
                direct->0.sigma_fs
            } else {
                jitter_fs
            })
            &&& e.rx.idx != reference && direct is None ==> (r is Some <==> around.len() > 0)
            &&& e.rx.idx != reference && direct is None && r is Some ==> {
                &&& 0 <= i < around.len() ==> a.sigma_fs <= around[i].sigma_fs || a.sigma_fs
                    == jitter_fs
                &&& exists|k: int|
                    0 <= k < around.len() && (#[trigger] around[k]).t_fs == a.t_fs && a.sigma_fs == (
                    if around[k].sigma_fs > jitter_fs {
                        around[k].sigma_fs
                    } else {
                        jitter_fs
                    })
            }
            &&& r is Some ==> a.rx == e.rx.idx && a.at == e.at && a.sigma_fs >= jitter_fs
        }),
{
    law_best_is_least(around);
    if around.len() > 0 {
        let k = choose|k: int| 0 <= k < around.len() && around[k] == best_of(around)->0;
        assert(around[k].t_fs == best_of(around)->0.t_fs);
        if 0 <= i < around.len() {
            assert(best_of(around)->0.sigma_fs <= around[i].sigma_fs);
        }
    }
}

/// Of two ways around with the same error the first is taken.
pub proof fn law_the_first_of_equal_ways(ways: Seq<Timed>, w: Timed)
    ensures
        ways.len() == 0 ==> best_of(ways.push(w)) == Some(w),
        ways.len() > 0 && w.sigma_fs >= best_of(ways)->0.sigma_fs ==> best_of(ways.push(w))
            == best_of(ways),
        ways.len() > 0 && w.sigma_fs < best_of(ways)->0.sigma_fs ==> best_of(ways.push(w)) == Some(
            w,
        ),
{
    law_best_is_least(ways);
    assert(ways.push(w).drop_last() =~= ways);
}

/// One more arrival goes behind all that are not later and before all that are,
/// and the others stay in their order.
pub proof fn law_one_more_in_order(s: Seq<Arrival>, a: Arrival)
    ensures
        exists|k: int| #[trigger] goes_in_at(in_order(s), a, in_order(s.push(a)), k),
{
    assert(s.push(a).drop_last() =~= s);
    law_order(s);
    let head = in_order(s);
    let k = place(head, a);
    lemma_place(head, a);
    assert forall|i: int| 0 <= i < k implies (#[trigger] head[i]).t_fs <= a.t_fs by {
        assert(head[i].t_fs <= head[k - 1].t_fs);
    }
    assert(goes_in_at(head, a, in_order(s.push(a)), k));
}

/// `all` is `s` with `a` at position `k`: behind what is not later, before what
/// is.
pub open spec fn goes_in_at(s: Seq<Arrival>, a: Arrival, all: Seq<Arrival>, k: int) -> bool {
    &&& 0 <= k <= s.len()
    &&& all == s.insert(k, a)
    &&& forall|i: int| 0 <= i < k ==> (#[trigger] s[i]).t_fs <= a.t_fs
    &&& forall|i: int| k <= i < s.len() ==> (#[trigger] s[i]).t_fs > a.t_fs
}

/// Arrivals fall into clusters of at most 2.5 ms, each of which opens more than
/// that behind the one before it; fewer than four arrivals give none, and four
/// or more that lie within 2.5 ms give one.
pub proof fn law_clusters_are_short_and_apart(conv: Seq<Arrival>, c: int, i: int)
    ensures
        conv.len() < 4 ==> clusters_of(conv).len() == 0,
        conv.len() >= 4 ==> clusters_of(conv).len() > 0,
        0 <= c < clusters_of(conv).len() ==> clusters_of(conv)[c].len() > 0,
        0 <= c < clusters_of(conv).len() && 0 <= i < clusters_of(conv)[c].len() ==> 0
            <= clusters_of(conv)[c][i].t_fs - clusters_of(conv)[c][0].t_fs <= 2_500_000_000_000,
        0 < c < clusters_of(conv).len() ==> clusters_of(conv)[c][0].t_fs - clusters_of(conv)[c
            - 1][0].t_fs > 2_500_000_000_000,
        conv.len() >= 4 && (forall|a: int, b: int|
            0 <= a < conv.len() && 0 <= b < conv.len() ==> (#[trigger] conv[a]).t_fs - (
            #[trigger] conv[b]).t_fs <= 2_500_000_000_000) ==> clusters_of(conv).len() == 1
            && clusters_of(conv)[0].to_multiset() == conv.to_multiset(),
{
    if conv.len() >= 4 {
        let s = in_order(conv);
        law_order(conv);
        law_cut(s);
        lemma_cut_rises(s, c, i);
        let parts = clusters_of(conv);
        if forall|a: int, b: int|
            0 <= a < conv.len() && 0 <= b < conv.len() ==> (#[trigger] conv[a]).t_fs - (
            #[trigger] conv[b]).t_fs <= 2_500_000_000_000 {
            broadcast use vstd::seq_lib::group_to_multiset_ensures;

            lemma_run(s, 0);
            let n = run(s, 0);
            if n < s.len() {
                assert(s.to_multiset().contains(s[n]) && s.to_multiset().contains(s[0])) by {
                    assert(s.contains(s[n]) && s.contains(s[0]));
                }
                assert(conv.contains(s[n]) && conv.contains(s[0]));
                let a = choose|a: int| 0 <= a < conv.len() && conv[a] == s[n];
                let b = choose|b: int| 0 <= b < conv.len() && conv[b] == s[0];
                assert(conv[a].t_fs - conv[b].t_fs <= 2_500_000_000_000);
            }
            assert(s.take(n) =~= s);
            assert(s.skip(n) =~= Seq::<Arrival>::empty());
            assert(s.skip(n).len() == 0);
            assert(cut(s.skip(n)) =~= Seq::<Seq<Arrival>>::empty());
            assert(parts =~= seq![s.take(n)]);
        }
    }
}

proof fn lemma_cut_rises(s: Seq<Arrival>, c: int, i: int)
    requires
        ascending(s),
    ensures
        0 <= c < cut(s).len() && 0 <= i < cut(s)[c].len() ==> cut(s)[c][0].t_fs <= cut(s)[c][i].t_fs,
    decreases s.len(),
{
    if s.len() > 0 {
        lemma_run(s, 0);
        let n = run(s, 0);
        let rest = s.skip(n);
        assert forall|a: int, b: int| 0 <= a <= b < rest.len() implies rest[a].t_fs <= rest[b].t_fs by {
            assert(rest[a] == s[a + n] && rest[b] == s[b + n]);
        }
        lemma_cut_rises(rest, c - 1, i);
        if c == 0 && 0 <= i < n {
            assert(cut(s)[0] == s.take(n));
            assert(s[0].t_fs <= s[i].t_fs);
        } else if 0 < c < cut(s).len() {
            assert(cut(s)[c] == cut(rest)[c - 1]);
        }
    }
}

} // verus!
