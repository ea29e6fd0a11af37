//! A keyed table of any size: lists of rows, each key in the list that its code
//! points to.

use vstd::prelude::*;
use crate::rows::{Choice, Key, Rows};
#[allow(unused_imports)]
use crate::rows::{
    distinct_keys, has_key, kept, lemma_map_of, lemma_same_map, map_of, row_of, row_views,
};

verus! {

/// Rows per list above which a table spreads out.
pub const CROWDED: usize = 2;

/// The list that a code points to among `n`.
pub open spec fn spot(code: u64, n: nat) -> int
    recommends
        n > 0,
{
    code as int % n as int
}

/// Every key is in the list that its code points to.
spec fn placed<K: Key, W: View>(lists: Seq<Rows<K, W>>) -> bool {
    forall|i: int, k: K::V|
        0 <= i < lists.len() && #[trigger] lists[i]@.contains_key(k) ==> spot(
            K::code(k),
            lists.len(),
        ) == i
}

/// The map that the lists spell out.
spec fn map_in<K: Key, W: View>(lists: Seq<Rows<K, W>>) -> Map<K::V, W::V> {
    Map::new(
        |k: K::V| lists.len() > 0 && lists[spot(K::code(k), lists.len())]@.contains_key(k),
        |k: K::V| lists[spot(K::code(k), lists.len())]@[k],
    )
}

/// The rows by their views.
pub open spec fn ref_views<'a, K: Key, W: View>(rows: Seq<(&'a K, &'a W)>) -> Seq<(K::V, W::V)> {
    Seq::new(rows.len(), |i: int| (rows[i].0@, rows[i].1@))
}

/// No rows.
pub struct Never {}

impl<K: Key, W: View> Choice<K, W> for Never {
    open spec fn picks(&self, k: K::V, w: W::V) -> bool {
        false
    }

    fn check(&self, k: &K, w: &W) -> (r: bool) {
        false
    }
}

fn find_spot(code: u64, n: usize) -> (r: usize)
    requires
        n > 0,
    ensures
        r == spot(code, n as nat),
        r < n,
{
    (code % (n as u64)) as usize
}

/// Puts a row into the list that it belongs to.
fn place<K: Key, W: View>(lists: &mut Vec<Rows<K, W>>, k: K, w: W)
    requires
        old(lists)@.len() > 0,
        placed(old(lists)@),
    ensures
        final(lists)@.len() == old(lists)@.len(),
        placed(final(lists)@),
        map_in(final(lists)@) == map_in(old(lists)@).insert(k@, w@),
{
    let ghost before = lists@;
    let ghost (kv, wv) = (k@, w@);
    let i: usize = find_spot(k.find_code(), lists.len());
    lists[i].insert(k, w);
    proof {
        let after = lists@;
        assert(after[i as int]@ == before[i as int]@.insert(kv, wv));
        assert forall|j: int, q: K::V|
            0 <= j < after.len() && #[trigger] after[j]@.contains_key(q) implies spot(
            K::code(q),
            after.len(),
        ) == j by {
            if j != i {
                assert(after[j] == before[j]);
                assert(before[j]@.contains_key(q));
            } else if q != kv {
                assert(before[j]@.contains_key(q));
            }
        }
        assert(map_in(after) =~= map_in(before).insert(kv, wv));
    }
}

/// The rows from position `n` on, one more in front.
proof fn lemma_one_more<A, B>(rows: Seq<(A, B)>, n: int)
    requires
        distinct_keys(rows),
        0 <= n < rows.len(),
    ensures
        distinct_keys(rows.skip(n)),
        map_of(rows.skip(n)) == map_of(rows.skip(n + 1)).insert(rows[n].0, rows[n].1),
{
    let a = rows.skip(n);
    let b = rows.skip(n + 1);
    assert(distinct_keys(a)) by {
        assert forall|i: int, j: int| 0 <= i < j < a.len() implies a[i].0 != a[j].0 by {
            assert(rows[n + i].0 != rows[n + j].0);
        }
    }
    assert(distinct_keys(b)) by {
        assert forall|i: int, j: int| 0 <= i < j < b.len() implies b[i].0 != b[j].0 by {
            assert(rows[n + 1 + i].0 != rows[n + 1 + j].0);
        }
    }
    lemma_map_of(b);
    let m = map_of(b).insert(rows[n].0, rows[n].1);
    assert forall|i: int| 0 <= i < a.len() implies m.contains_key(#[trigger] a[i].0) && m[a[i].0]
        == a[i].1 by {
        if i > 0 {
            assert(a[i] == b[i - 1]);
            assert(map_of(b).contains_key(b[i - 1].0));
            assert(rows[n].0 != rows[n + i].0);
        }
    }
    assert forall|k: A| #[trigger] m.contains_key(k) implies has_key(a, k) by {
        if k == rows[n].0 {
            assert(a[0].0 == k);
        } else {
            assert(has_key(b, k));
            let j = row_of(b, k);
            assert(a[j + 1].0 == k);
        }
    }
    lemma_same_map(a, m);
}

/// Puts all rows into the lists that they belong to.
fn place_all<K: Key, W: View>(lists: &mut Vec<Rows<K, W>>, rows: Vec<(K, W)>)
    requires
        old(lists)@.len() > 0,
        placed(old(lists)@),
        distinct_keys(row_views(rows@)),
    ensures
        final(lists)@.len() == old(lists)@.len(),
        placed(final(lists)@),
        map_in(final(lists)@) == map_in(old(lists)@).union_prefer_right(map_of(row_views(rows@))),
{
    let ghost m = map_in(lists@);
    let ghost full = rows@;
    let ghost views = row_views(full);
    let ghost width = lists@.len();
    let mut rows = rows;
    let mut n: usize = rows.len();
    proof {
        let none = views.skip(n as int);
        assert(none =~= Seq::<(K::V, W::V)>::empty());
        lemma_map_of(none);
        assert(m.union_prefer_right(map_of(none)) =~= m);
    }
    while n > 0
        invariant
            n == rows@.len(),
            n <= full.len(),
            rows@ == full.take(n as int),
            views == row_views(full),
            distinct_keys(views),
            lists@.len() == width,
            width > 0,
            placed(lists@),
            map_in(lists@) == m.union_prefer_right(map_of(views.skip(n as int))),
        decreases n,
    {
        n = n - 1;
        let (k, w) = rows.pop().unwrap();
        proof {
            assert(rows@ =~= full.take(n as int));
            assert(full[n as int] == (k, w));
            lemma_one_more(views, n as int);
        }
        let ghost before = map_in(lists@);
        place(lists, k, w);
        assert(before.insert(k@, w@) =~= m.union_prefer_right(map_of(views.skip(n as int))));
    }
    assert(views.skip(0) =~= views);
}

/// Empty lists, `n` of them.
fn empty_lists<K: Key, W: View>(n: usize) -> (r: Vec<Rows<K, W>>)
    ensures
        r@.len() == n,
        placed(r@),
        map_in(r@) == Map::<K::V, W::V>::empty(),
{
    let mut out: Vec<Rows<K, W>> = Vec::new();
    let mut i: usize = 0;
    while i < n
        invariant
            i <= n,
            out@.len() == i,
            forall|j: int| 0 <= j < i ==> (#[trigger] out@[j])@ == Map::<K::V, W::V>::empty(),
        decreases n - i,
    {
        out.push(Rows::new());
        i = i + 1;
    }
    assert(map_in(out@) =~= Map::<K::V, W::V>::empty()) by {
        assert forall|k: K::V| !(#[trigger] map_in(out@).contains_key(k)) by {
            if n > 0 {
                let j = spot(K::code(k), n as nat);
                assert(0 <= j < n);
                assert(out@[j]@ == Map::<K::V, W::V>::empty());
            }
        }
    }
    out
}

/// Every key whose list lies at `n` or beyond.
spec fn from_list<K: Key, W: View>(lists: Seq<Rows<K, W>>, n: int) -> Map<K::V, W::V> {
    kept(map_in(lists), |k: K::V, w: W::V| spot(K::code(k), lists.len()) >= n)
}

/// The same rows in `n` lists.
fn spread_out<K: Key, W: View>(lists: Vec<Rows<K, W>>, n: usize) -> (r: Vec<Rows<K, W>>)
    requires
        n > 0,
        placed(lists@),
    ensures
        r@.len() == n,
        placed(r@),
        map_in(r@) == map_in(lists@),
{
    let ghost full = lists@;
    let mut lists = lists;
    let mut out: Vec<Rows<K, W>> = empty_lists(n);
    let mut left: usize = lists.len();
    assert(from_list(full, left as int) =~= Map::<K::V, W::V>::empty());
    while left > 0
        invariant
            left == lists@.len(),
            left <= full.len(),
            lists@ == full.take(left as int),
            placed(full),
            n > 0,
            out@.len() == n,
            placed(out@),
            map_in(out@) == from_list(full, left as int),
        decreases left,
    {
        left = left - 1;
        let mut list = lists.pop().unwrap();
        assert(lists@ =~= full.take(left as int));
        let ghost here = list@;
        assert(here == full[left as int]@);
        let rows = list.part(&Never {  });
        proof {
            assert(map_of(row_views(rows@)) =~= here);
            let a = from_list(full, left + 1).union_prefer_right(here);
            let b = from_list(full, left as int);
            assert forall|k: K::V| #[trigger] a.contains_key(k) <==> b.contains_key(k) by {
                if here.contains_key(k) {
                    assert(full[left as int]@.contains_key(k));
                }
            }
            assert(a =~= b) by {
                assert forall|k: K::V| a.contains_key(k) implies #[trigger] a[k] == b[k] by {
                    if here.contains_key(k) {
                        assert(full[left as int]@.contains_key(k));
                    }
                }
            }
        }
        place_all(&mut out, rows);
    }
    assert(from_list(full, 0) =~= map_in(full)) by {
        assert forall|k: K::V| #[trigger] map_in(full).contains_key(k) implies spot(
            K::code(k),
            full.len(),
        ) >= 0 by {}
    }
    out
}

/// `rows` are the entries that satisfy `q` of the first `i` lists.
spec fn gathered<K: Key, W: View>(
    lists: Seq<Rows<K, W>>,
    q: spec_fn(K::V, W::V) -> bool,
    i: int,
    rows: Seq<(K::V, W::V)>,
) -> bool {
    let m = map_in(lists);
    &&& distinct_keys(rows)
    &&& forall|j: int|
        0 <= j < rows.len() ==> m.contains_key((#[trigger] rows[j]).0) && m[rows[j].0] == rows[j].1
            && q(rows[j].0, rows[j].1) && spot(K::code(rows[j].0), lists.len()) < i
    &&& forall|k: K::V| #[trigger]
        m.contains_key(k) && q(k, m[k]) && spot(K::code(k), lists.len()) < i ==> has_key(rows, k)
}

proof fn lemma_gather<K: Key, W: View>(
    lists: Seq<Rows<K, W>>,
    q: spec_fn(K::V, W::V) -> bool,
    i: int,
    head: Seq<(K::V, W::V)>,
    tail: Seq<(K::V, W::V)>,
)
    requires
        placed(lists),
        0 <= i < lists.len(),
        gathered(lists, q, i, head),
        distinct_keys(tail),
        map_of(tail) == kept(lists[i]@, q),
    ensures
        gathered(lists, q, i + 1, head + tail),
{
    let m = map_in(lists);
    let here = lists[i]@;
    let all = head + tail;
    lemma_map_of(tail);
    assert forall|j: int| 0 <= j < tail.len() implies m.contains_key((#[trigger] tail[j]).0)
        && m[tail[j].0] == tail[j].1 && q(tail[j].0, tail[j].1) && spot(
        K::code(tail[j].0),
        lists.len(),
    ) == i by {
        assert(map_of(tail).contains_key(tail[j].0));
        assert(here.contains_key(tail[j].0));
    }
    assert forall|j: int| 0 <= j < all.len() implies m.contains_key((#[trigger] all[j]).0)
        && m[all[j].0] == all[j].1 && q(all[j].0, all[j].1) && spot(K::code(all[j].0), lists.len())
        < i + 1 by {
        if j < head.len() {
            assert(all[j] == head[j]);
        } else {
            assert(all[j] == tail[j - head.len()]);
        }
    }
    assert forall|a: int, b: int| 0 <= a < b < all.len() implies all[a].0 != all[b].0 by {
        if b < head.len() {
            assert(all[a] == head[a] && all[b] == head[b]);
        } else if a >= head.len() {
            assert(all[a] == tail[a - head.len()] && all[b] == tail[b - head.len()]);
        } else {
            assert(all[a] == head[a] && all[b] == tail[b - head.len()]);
            assert(spot(K::code(head[a].0), lists.len()) < i);
            assert(spot(K::code(tail[b - head.len()].0), lists.len()) == i);
        }
    }
    assert forall|k: K::V| #[trigger]
        m.contains_key(k) && q(k, m[k]) && spot(K::code(k), lists.len()) < i + 1 implies has_key(
        all,
        k,
    ) by {
        if spot(K::code(k), lists.len()) < i {
            assert(has_key(head, k));
            let j = row_of(head, k);
            assert(all[j].0 == k);
        } else {
            assert(spot(K::code(k), lists.len()) == i);
            assert(kept(here, q).contains_key(k));
            assert(has_key(tail, k));
            let j = row_of(tail, k);
            assert(all[head.len() + j].0 == k);
        }
    }
}

proof fn lemma_gathered<K: Key, W: View>(
    lists: Seq<Rows<K, W>>,
    q: spec_fn(K::V, W::V) -> bool,
    rows: Seq<(K::V, W::V)>,
)
    requires
        gathered(lists, q, lists.len() as int, rows),
    ensures
        distinct_keys(rows),
        map_of(rows) == kept(map_in(lists), q),
{
    let m = map_in(lists);
    assert forall|k: K::V| #[trigger] kept(m, q).contains_key(k) implies has_key(rows, k) by {
        assert(m.contains_key(k) && q(k, m[k]));
    }
    lemma_same_map(rows, kept(m, q));
}

/// Keeping the rows that satisfy `p` list by list keeps them in all.
proof fn lemma_kept<K: Key, W: View>(
    before: Seq<Rows<K, W>>,
    after: Seq<Rows<K, W>>,
    p: spec_fn(K::V, W::V) -> bool,
)
    requires
        placed(before),
        before.len() == after.len(),
        forall|j: int| 0 <= j < before.len() ==> (#[trigger] after[j])@ == kept(before[j]@, p),
    ensures
        placed(after),
        map_in(after) == kept(map_in(before), p),
{
    assert forall|j: int, k: K::V|
        0 <= j < after.len() && #[trigger] after[j]@.contains_key(k) implies spot(
        K::code(k),
        after.len(),
    ) == j by {
        assert(after[j]@ == kept(before[j]@, p));
        assert(before[j]@.contains_key(k));
    }
    let a = map_in(after);
    let b = kept(map_in(before), p);
    if before.len() > 0 {
        assert forall|k: K::V| #[trigger] a.contains_key(k) <==> b.contains_key(k) by {
            let j = spot(K::code(k), before.len());
            assert(0 <= j < before.len());
            assert(after[j]@ == kept(before[j]@, p));
        }
        assert forall|k: K::V| a.contains_key(k) implies #[trigger] a[k] == b[k] by {
            let j = spot(K::code(k), before.len());
            assert(0 <= j < before.len());
            assert(after[j]@ == kept(before[j]@, p));
        }
    }
    assert(a =~= b);
}

/// A table of values of type `W` under keys of type `K`.
pub struct Table<K: Key, W: View> {
    lists: Vec<Rows<K, W>>,
    /// Rows in the table, for deciding when to spread out.
    load: usize,
}

impl<K: Key, W: View> View for Table<K, W> {
    type V = Map<K::V, W::V>;

    closed spec fn view(&self) -> Map<K::V, W::V> {
        map_in(self.lists@)
    }
}

impl<K: Key, W: View> Table<K, W> {
    #[verifier::type_invariant]
    spec fn keys_are_placed(&self) -> bool {
        placed(self.lists@)
    }

    /// An empty table.
    pub fn new() -> (r: Self)
        ensures
            r@ == Map::<K::V, W::V>::empty(),
    {
        Table { lists: empty_lists(0), load: 0 }
    }

    /// The value under `k`.
    pub fn get(&self, k: &K) -> (r: Option<&W>)
        ensures
            match r {
                Some(w) => self@.contains_key(k@) && w@ == self@[k@],
                None => !self@.contains_key(k@),
            },
    {
        if self.lists.len() == 0 {
            return None;
        }
        let i: usize = find_spot(k.find_code(), self.lists.len());
        self.lists[i].get(k)
    }

    /// Whether there is a value under `k`.
    pub fn contains(&self, k: &K) -> (r: bool)
        ensures
            r == self@.contains_key(k@),
    {
        self.get(k).is_some()
    }

    /// Takes the value under `k` out of the table.
    pub fn take(&mut self, k: &K) -> (r: Option<W>)
        ensures
            final(self)@ == old(self)@.remove(k@),
            match r {
                Some(w) => old(self)@.contains_key(k@) && w@ == old(self)@[k@],
                None => !old(self)@.contains_key(k@),
            },
    {
        proof {
            use_type_invariant(&*self);
        }
        if self.lists.len() == 0 {
            assert(self@.remove(k@) =~= self@);
            return None;
        }
        let mut lists: Vec<Rows<K, W>> = Vec::new();
        std::mem::swap(&mut lists, &mut self.lists);
        let ghost before = lists@;
        let i: usize = find_spot(k.find_code(), lists.len());
        let r = lists[i].take(k);
        proof {
            let after = lists@;
            assert(after[i as int]@ == before[i as int]@.remove(k@));
            assert forall|j: int, q: K::V|
                0 <= j < after.len() && #[trigger] after[j]@.contains_key(q) implies spot(
                K::code(q),
                after.len(),
            ) == j by {
                assert(before[j]@.contains_key(q));
            }
            assert(map_in(after) =~= map_in(before).remove(k@));
        }
        if r.is_some() && self.load > 0 {
            self.load = self.load - 1;
        }
        self.lists = lists;
        r
    }

    /// Puts `w` under `k`, in place of what was there.
    pub fn insert(&mut self, k: K, w: W)
        ensures
            final(self)@ == old(self)@.insert(k@, w@),
    {
        let ghost m = self@;
        let _ = self.take(&k);
        proof {
            use_type_invariant(&*self);
        }
        let mut lists: Vec<Rows<K, W>> = Vec::new();
        std::mem::swap(&mut lists, &mut self.lists);
        let width: usize = lists.len();
        if width == 0 {
            lists = spread_out(lists, 1);
        } else if self.load / CROWDED >= width && width <= usize::MAX / 2 {
            lists = spread_out(lists, 2 * width);
        }
        let ghost (kv, wv) = (k@, w@);
        place(&mut lists, k, w);
        assert(m.remove(kv).insert(kv, wv) =~= m.insert(kv, wv));
        if self.load < usize::MAX {
            self.load = self.load + 1;
        }
        self.lists = lists;
    }

    /// Keeps the rows that `choice` picks, and hands out the others.
    pub fn part<C: Choice<K, W>>(&mut self, choice: &C) -> (r: Vec<(K, W)>)
        ensures
            final(self)@ == kept(old(self)@, |k: K::V, w: W::V| choice.picks(k, w)),
            distinct_keys(row_views(r@)),
            map_of(row_views(r@)) == kept(old(self)@, |k: K::V, w: W::V| !choice.picks(k, w)),
    {
        proof {
            use_type_invariant(&*self);
        }
        let ghost p = |k: K::V, w: W::V| choice.picks(k, w);
        let ghost q = |k: K::V, w: W::V| !choice.picks(k, w);
        let mut lists: Vec<Rows<K, W>> = Vec::new();
        std::mem::swap(&mut lists, &mut self.lists);
        let ghost before = lists@;
        let mut out: Vec<(K, W)> = Vec::new();
        let mut i: usize = 0;
        while i < lists.len()
            invariant
                i <= lists@.len(),
                lists@.len() == before.len(),
                placed(before),
                p == (|k: K::V, w: W::V| choice.picks(k, w)),
                q == (|k: K::V, w: W::V| !choice.picks(k, w)),
                forall|j: int| i <= j < before.len() ==> lists@[j] == before[j],
                forall|j: int| 0 <= j < i ==> (#[trigger] lists@[j])@ == kept(before[j]@, p),
                gathered(before, q, i as int, row_views(out@)),
            decreases lists@.len() - i,
        {
            let ghost head = out@;
            let mut more = lists[i].part(choice);
            let ghost tail = more@;
            out.append(&mut more);
            proof {
                lemma_gather(before, q, i as int, row_views(head), row_views(tail));
                assert(row_views(out@) =~= row_views(head) + row_views(tail));
            }
            i = i + 1;
        }
        proof {
            lemma_gathered(before, q, row_views(out@));
            lemma_kept(before, lists@, p);
        }
        let gone: usize = out.len();
        self.load = if self.load >= gone {
            self.load - gone
        } else {
            0
        };
        self.lists = lists;
        out
    }

    /// Keeps the rows that `choice` picks.
    pub fn retain<C: Choice<K, W>>(&mut self, choice: &C)
        ensures
            final(self)@ == kept(old(self)@, |k: K::V, w: W::V| choice.picks(k, w)),
    {
        let _ = self.part(choice);
    }

    /// All rows.
    pub fn rows(&self) -> (r: Vec<(&K, &W)>)
        ensures
            distinct_keys(ref_views(r@)),
            map_of(ref_views(r@)) == self@,
            self@.dom().finite(),
            self@.len() == r@.len(),
    {
        proof {
            use_type_invariant(self);
        }
        let ghost lists = self.lists@;
        let ghost q = |k: K::V, w: W::V| true;
        let mut out: Vec<(&K, &W)> = Vec::new();
        let mut i: usize = 0;
        while i < self.lists.len()
            invariant
                i <= lists.len(),
                lists == self.lists@,
                placed(lists),
                q == (|k: K::V, w: W::V| true),
                gathered(lists, q, i as int, ref_views(out@)),
            decreases lists.len() - i,
        {
            let list: &Rows<K, W> = &self.lists[i];
            let n: usize = list.len();
            let ghost head = out@;
            let ghost tail = list.spec_rows();
            let mut j: usize = 0;
            assert(ref_views(out@) =~= ref_views(head) + tail.take(0));
            while j < n
                invariant
                    j <= n,
                    n == tail.len(),
                    tail == list.spec_rows(),
                    ref_views(out@) == ref_views(head) + tail.take(j as int),
                decreases n - j,
            {
                let ghost before = out@;
                out.push((list.key_at(j), list.value_at(j)));
                j = j + 1;
                assert(ref_views(out@) =~= ref_views(before).push(tail[j - 1]));
                assert(ref_views(out@) =~= ref_views(head) + tail.take(j as int));
            }
            proof {
                assert(tail.take(j as int) =~= tail);
                assert(kept(list@, q) =~= list@);
                lemma_gather(lists, q, i as int, ref_views(head), tail);
            }
            i = i + 1;
        }
        proof {
            lemma_gathered(lists, q, ref_views(out@));
            assert(kept(map_in(lists), q) =~= map_in(lists));
            lemma_map_of(ref_views(out@));
        }
        out
    }

    /// The number of rows.
    pub fn len(&self) -> (r: usize)
        ensures
            r == self@.len(),
            self@.dom().finite(),
    {
        self.rows().len()
    }
}

} // verus!
