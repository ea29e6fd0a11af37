//! Rows under keys: at most one row per key, in one list.
//!
//! Keys and values are spoken of by their views, so a contract sees a plain
//! mathematical map. A list of rows is searched from end to end; tables of any
//! size are made of many such lists.

use vstd::prelude::*;
use crate::clock::within;
#[allow(unused_imports)]
use crate::clock::recent;
use crate::hash::{hash_bytes, mix};
#[allow(unused_imports)]
use crate::hash::{hash_of, mixed};
#[allow(unused_imports)]
use vstd::utf8::encode_utf8;

verus! {

/// A key that can be compared with another of its type, and has a code by
/// which it can be sorted into places.
pub trait Key: View + Sized {
    spec fn code(v: Self::V) -> u64;

    fn same(&self, other: &Self) -> (r: bool)
        ensures
            r == (self@ == other@),
    ;

    fn find_code(&self) -> (r: u64)
        ensures
            r == Self::code(self@),
    ;
}

impl Key for usize {
    open spec fn code(v: usize) -> u64 {
        v as u64
    }

    fn same(&self, other: &Self) -> (r: bool) {
        *self == *other
    }

    fn find_code(&self) -> (r: u64) {
        *self as u64
    }
}

impl Key for u32 {
    open spec fn code(v: u32) -> u64 {
        v as u64
    }

    fn same(&self, other: &Self) -> (r: bool) {
        *self == *other
    }

    fn find_code(&self) -> (r: u64) {
        *self as u64
    }
}

impl Key for String {
    open spec fn code(v: Seq<char>) -> u64 {
        hash_of(encode_utf8(v))
    }

    fn same(&self, other: &Self) -> (r: bool) {
        *self == *other
    }

    fn find_code(&self) -> (r: u64) {
        hash_bytes(self.as_str().as_bytes())
    }
}

impl Key for (usize, usize) {
    open spec fn code(v: (usize, usize)) -> u64 {
        mixed(v.0 as u64, v.1 as u64)
    }

    fn same(&self, other: &Self) -> (r: bool) {
        self.0 == other.0 && self.1 == other.1
    }

    fn find_code(&self) -> (r: u64) {
        mix(self.0 as u64, self.1 as u64)
    }
}

impl Key for (String, String) {
    open spec fn code(v: (Seq<char>, Seq<char>)) -> u64 {
        mixed(hash_of(encode_utf8(v.0)), hash_of(encode_utf8(v.1)))
    }

    fn same(&self, other: &Self) -> (r: bool) {
        self.0 == other.0 && self.1 == other.1
    }

    fn find_code(&self) -> (r: u64) {
        mix(hash_bytes(self.0.as_str().as_bytes()), hash_bytes(self.1.as_str().as_bytes()))
    }
}

/// A choice among the rows of a table with keys `K` and values `W`.
pub trait Choice<K: Key, W: View> {
    spec fn picks(&self, k: K::V, w: W::V) -> bool;

    fn check(&self, k: &K, w: &W) -> (r: bool)
        ensures
            r == self.picks(k@, w@),
    ;
}

/// The rows with a time that lies less than `limit` before `now`.
pub struct Newer {
    pub now: i64,
    pub limit: i64,
}

impl<K: Key> Choice<K, i64> for Newer {
    open spec fn picks(&self, k: K::V, w: i64) -> bool {
        recent(self.now as int, w as int, self.limit as int)
    }

    fn check(&self, k: &K, w: &i64) -> (r: bool) {
        within(self.now, *w, self.limit)
    }
}

/// No key occurs in two rows.
pub open spec fn distinct_keys<A, B>(rows: Seq<(A, B)>) -> bool {
    forall|i: int, j: int| 0 <= i < j < rows.len() ==> rows[i].0 != rows[j].0
}

/// Some row has the key `k`.
pub open spec fn has_key<A, B>(rows: Seq<(A, B)>, k: A) -> bool {
    exists|i: int| 0 <= i < rows.len() && #[trigger] rows[i].0 == k
}

/// The position of the row with key `k`.
pub open spec fn row_of<A, B>(rows: Seq<(A, B)>, k: A) -> int {
    choose|i: int| 0 <= i < rows.len() && #[trigger] rows[i].0 == k
}

/// The map that the rows spell out.
pub open spec fn map_of<A, B>(rows: Seq<(A, B)>) -> Map<A, B> {
    Map::new(|k: A| has_key(rows, k), |k: A| rows[row_of(rows, k)].1)
}

/// The part of `m` whose entries satisfy `p`.
pub open spec fn kept<A, B>(m: Map<A, B>, p: spec_fn(A, B) -> bool) -> Map<A, B> {
    Map::new(|k: A| m.contains_key(k) && p(k, m[k]), |k: A| m[k])
}

/// A row is found under its key, and nothing else is.
pub proof fn lemma_map_of<A, B>(rows: Seq<(A, B)>)
    requires
        distinct_keys(rows),
    ensures
        forall|i: int|
            0 <= i < rows.len() ==> map_of(rows).contains_key(#[trigger] rows[i].0) && map_of(
                rows,
            )[rows[i].0] == rows[i].1,
        forall|k: A| #[trigger] map_of(rows).contains_key(k) ==> has_key(rows, k),
        map_of(rows).dom().finite(),
        map_of(rows).dom().len() == rows.len(),
    decreases rows.len(),
{
    assert forall|i: int| 0 <= i < rows.len() implies map_of(rows).contains_key(
        #[trigger] rows[i].0,
    ) && map_of(rows)[rows[i].0] == rows[i].1 by {
        let k = rows[i].0;
        assert(has_key(rows, k));
        let j = row_of(rows, k);
        assert(rows[j].0 == k);
    }
    if rows.len() == 0 {
        assert(map_of(rows).dom() =~= Set::empty());
    } else {
        let rest = rows.drop_last();
        lemma_map_of(rest);
        assert(!has_key(rest, rows.last().0));
        assert forall|k: A| map_of(rows).dom().contains(k) implies #[trigger] map_of(
            rest,
        ).dom().insert(rows.last().0).contains(k) by {
            let i = row_of(rows, k);
            assert(has_key(rows, k));
            assert(rows[i].0 == k);
            if i < rest.len() {
                assert(rest[i].0 == k);
            }
        }
        assert forall|k: A| #[trigger]
            map_of(rest).dom().insert(rows.last().0).contains(k) implies map_of(
            rows,
        ).dom().contains(k) by {
            if k != rows.last().0 {
                assert(has_key(rest, k));
                let i = row_of(rest, k);
                assert(rest[i].0 == k);
                assert(rows[i].0 == k);
            } else {
                assert(rows[rows.len() - 1].0 == k);
            }
        }
        assert(map_of(rows).dom() =~= map_of(rest).dom().insert(rows.last().0));
    }
}

/// Two row lists with the same rows, in whatever order, spell out one map.
pub proof fn lemma_same_map<A, B>(rows: Seq<(A, B)>, m: Map<A, B>)
    requires
        distinct_keys(rows),
        forall|i: int|
            0 <= i < rows.len() ==> m.contains_key(#[trigger] rows[i].0) && m[rows[i].0]
                == rows[i].1,
        forall|k: A| #[trigger] m.contains_key(k) ==> has_key(rows, k),
    ensures
        map_of(rows) == m,
{
    lemma_map_of(rows);
    assert forall|k: A| map_of(rows).contains_key(k) == #[trigger] m.contains_key(k) by {
        if map_of(rows).contains_key(k) {
            let i = row_of(rows, k);
            assert(has_key(rows, k));
            assert(rows[i].0 == k);
        }
    }
    assert(map_of(rows) =~= m) by {
        assert forall|k: A| map_of(rows).contains_key(k) implies map_of(rows)[k] == #[trigger] m[k] by {
            let i = row_of(rows, k);
            assert(has_key(rows, k));
            assert(rows[i].0 == k);
        }
    }
}

/// `rows` are the entries of `full` from `start` on that satisfy `p`, by the
/// positions in `from`.
spec fn picked<A, B>(
    full: Seq<(A, B)>,
    start: int,
    from: Seq<int>,
    rows: Seq<(A, B)>,
    p: spec_fn(A, B) -> bool,
) -> bool {
    &&& from.len() == rows.len()
    &&& from.no_duplicates()
    &&& forall|j: int|
        0 <= j < from.len() ==> start <= #[trigger] from[j] < full.len() && rows[j]
            == full[from[j]] && p(rows[j].0, rows[j].1)
    &&& forall|i: int|
        start <= i < full.len() && p((#[trigger] full[i]).0, full[i].1) ==> from.contains(i)
}

proof fn lemma_picked_step<A, B>(
    full: Seq<(A, B)>,
    n: int,
    from: Seq<int>,
    rows: Seq<(A, B)>,
    p: spec_fn(A, B) -> bool,
)
    requires
        0 <= n < full.len(),
        picked(full, n + 1, from, rows, p),
    ensures
        p(full[n].0, full[n].1) ==> picked(full, n, from.push(n), rows.push(full[n]), p),
        !p(full[n].0, full[n].1) ==> picked(full, n, from, rows, p),
{
    if p(full[n].0, full[n].1) {
        let next = from.push(n);
        assert forall|i: int|
            n <= i < full.len() && p((#[trigger] full[i]).0, full[i].1) implies next.contains(i) by {
            if i > n {
                assert(from.contains(i));
                let q = choose|q: int| 0 <= q < from.len() && from[q] == i;
                assert(next[q] == i);
            } else {
                assert(next[from.len() as int] == i);
            }
        }
        assert(!from.contains(n));
    }
}

/// What is picked from a table is a table: that of the entries that satisfy
/// `p`.
proof fn lemma_picked<A, B>(
    full: Seq<(A, B)>,
    from: Seq<int>,
    rows: Seq<(A, B)>,
    p: spec_fn(A, B) -> bool,
)
    requires
        distinct_keys(full),
        picked(full, 0, from, rows, p),
    ensures
        distinct_keys(rows),
        map_of(rows) == kept(map_of(full), p),
{
    let target = kept(map_of(full), p);
    lemma_map_of(full);
    assert forall|a: int, b: int| 0 <= a < b < rows.len() implies rows[a].0 != rows[b].0 by {
        assert(rows[a] == full[from[a]]);
        assert(rows[b] == full[from[b]]);
        assert(from[a] != from[b]);
        if from[a] < from[b] {
            assert(full[from[a]].0 != full[from[b]].0);
        } else {
            assert(full[from[b]].0 != full[from[a]].0);
        }
    }
    assert forall|k: A| #[trigger] target.contains_key(k) implies has_key(rows, k) by {
        let i = row_of(full, k);
        assert(has_key(full, k));
        assert(full[i].0 == k);
        assert(from.contains(i));
        let j = choose|j: int| 0 <= j < from.len() && from[j] == i;
        assert(rows[j].0 == k);
    }
    assert forall|j: int| 0 <= j < rows.len() implies target.contains_key(#[trigger] rows[j].0)
        && target[rows[j].0] == rows[j].1 by {
        assert(rows[j] == full[from[j]]);
        assert(map_of(full).contains_key(full[from[j]].0));
    }
    lemma_same_map(rows, target);
}

/// A list of values of type `W` under keys of type `K`.
pub struct Rows<K: Key, W: View> {
    rows: Vec<(K, W)>,
}

/// The rows by their views.
pub open spec fn row_views<K: Key, W: View>(rows: Seq<(K, W)>) -> Seq<(K::V, W::V)> {
    Seq::new(rows.len(), |i: int| (rows[i].0@, rows[i].1@))
}

impl<K: Key, W: View> View for Rows<K, W> {
    type V = Map<K::V, W::V>;

    closed spec fn view(&self) -> Map<K::V, W::V> {
        map_of(self.spec_rows())
    }
}

impl<K: Key, W: View> Rows<K, W> {
    /// The rows by their views, in order.
    pub closed spec fn spec_rows(&self) -> Seq<(K::V, W::V)> {
        row_views(self.rows@)
    }

    #[verifier::type_invariant]
    spec fn one_row_per_key(&self) -> bool {
        distinct_keys(row_views(self.rows@))
    }

    /// No rows.
    pub fn new() -> (r: Self)
        ensures
            r@ == Map::<K::V, W::V>::empty(),
    {
        let r = Rows { rows: Vec::new() };
        assert(r@ =~= Map::<K::V, W::V>::empty());
        r
    }

    /// The number of rows.
    pub fn len(&self) -> (r: usize)
        ensures
            r == self@.len(),
            r == self.spec_rows().len(),
            self@.dom().finite(),
            distinct_keys(self.spec_rows()),
            self@ == map_of(self.spec_rows()),
    {
        proof {
            use_type_invariant(self);
            lemma_map_of(self.spec_rows());
        }
        self.rows.len()
    }

    fn find(&self, k: &K) -> (r: Option<usize>)
        ensures
            match r {
                Some(i) => i < self.rows@.len() && self.rows@[i as int].0@ == k@,
                None => forall|i: int| 0 <= i < self.rows@.len() ==> (#[trigger] self.rows@[i]).0@ != k@,
            },
    {
        let mut i: usize = 0;
        while i < self.rows.len()
            invariant
                i <= self.rows@.len(),
                forall|j: int| 0 <= j < i ==> (#[trigger] self.rows@[j]).0@ != k@,
            decreases self.rows@.len() - i,
        {
            if self.rows[i].0.same(k) {
                return Some(i);
            }
            i = i + 1;
        }
        None
    }

    /// The value under `k`.
    pub fn get(&self, k: &K) -> (r: Option<&W>)
        ensures
            match r {
                Some(w) => self@.contains_key(k@) && w@ == self@[k@],
                None => !self@.contains_key(k@),
            },
    {
        proof {
            use_type_invariant(self);
            lemma_map_of(self.spec_rows());
        }
        match self.find(k) {
            Some(i) => {
                assert(self.spec_rows()[i as int].0 == k@);
                Some(&self.rows[i].1)
            },
            None => {
                proof {
                    if self@.contains_key(k@) {
                        let i = row_of(self.spec_rows(), k@);
                        assert(has_key(self.spec_rows(), k@));
                        assert(self.spec_rows()[i].0 == k@);
                        assert(self.rows@[i].0@ == k@);
                    }
                }
                None
            },
        }
    }

    /// Takes the value under `k` out of the list.
    pub fn take(&mut self, k: &K) -> (r: Option<W>)
        ensures
            final(self)@ == old(self)@.remove(k@),
            match r {
                Some(w) => old(self)@.contains_key(k@) && w@ == old(self)@[k@],
                None => !old(self)@.contains_key(k@),
            },
    {
        proof {
            use_type_invariant(&*self);
            lemma_map_of(self.spec_rows());
        }
        let ghost before = self.spec_rows();
        let ghost m = self@;
        match self.find(k) {
            Some(i) => {
                let mut rows: Vec<(K, W)> = Vec::new();
                std::mem::swap(&mut rows, &mut self.rows);
                let ghost full = rows@;
                let (key, w) = rows.swap_remove(i);
                proof {
                    let after = row_views(rows@);
                    let last = full.len() - 1;
                    assert forall|j: int| 0 <= j < after.len() implies #[trigger] after[j]
                        == before[if j == i { last } else { j }] by {
                        assert(rows@[j] == full[if j == i { last } else { j }]);
                    }
                    assert(before[i as int].0 == k@);
                    assert(distinct_keys(after)) by {
                        assert forall|a: int, b: int| 0 <= a < b < after.len() implies after[a].0
                            != after[b].0 by {
                            let a0 = if a == i { last } else { a };
                            let b0 = if b == i { last } else { b };
                            assert(after[a] == before[a0]);
                            assert(after[b] == before[b0]);
                            assert(a0 != b0);
                            if a0 < b0 {
                                assert(before[a0].0 != before[b0].0);
                            } else {
                                assert(before[b0].0 != before[a0].0);
                            }
                        }
                    }
                    assert forall|q: K::V| #[trigger] m.remove(k@).contains_key(q) implies has_key(
                        after,
                        q,
                    ) by {
                        let j = row_of(before, q);
                        assert(has_key(before, q));
                        assert(before[j].0 == q);
                        assert(j != i);
                        if j == last {
                            assert(after[i as int].0 == q);
                        } else {
                            assert(after[j].0 == q);
                        }
                    }
                    assert forall|j: int| 0 <= j < after.len() implies m.remove(k@).contains_key(
                        #[trigger] after[j].0,
                    ) && m.remove(k@)[after[j].0] == after[j].1 by {
                        let j0 = if j == i { last } else { j };
                        assert(after[j] == before[j0]);
                        assert(j0 != i);
                        assert(before[j0].0 != k@) by {
                            if j0 < i {
                                assert(before[j0].0 != before[i as int].0);
                            } else {
                                assert(before[i as int].0 != before[j0].0);
                            }
                        }
                    }
                    lemma_same_map(after, m.remove(k@));
                }
                self.rows = rows;
                Some(w)
            },
            None => {
                proof {
                    if m.contains_key(k@) {
                        let i = row_of(before, k@);
                        assert(has_key(before, k@));
                        assert(before[i].0 == k@);
                        assert(self.rows@[i].0@ == k@);
                    }
                    assert(m.remove(k@) =~= m);
                }
                None
            },
        }
    }

    /// Puts `w` under `k`, in place of what was there.
    pub fn insert(&mut self, k: K, w: W)
        ensures
            final(self)@ == old(self)@.insert(k@, w@),
    {
        let ghost m = self@;
        let _ = self.take(&k);
        proof {
            use_type_invariant(&*self);
            lemma_map_of(self.spec_rows());
        }
        let ghost before = self.spec_rows();
        let mut rows: Vec<(K, W)> = Vec::new();
        std::mem::swap(&mut rows, &mut self.rows);
        let ghost (kv, wv) = (k@, w@);
        rows.push((k, w));
        proof {
            let after = row_views(rows@);
            let target = m.insert(kv, wv);
            assert(after =~= before.push((kv, wv)));
            assert(distinct_keys(after)) by {
                assert forall|a: int, b: int| 0 <= a < b < after.len() implies after[a].0
                    != after[b].0 by {
                    assert(after[a] == before[a]);
                    if b < before.len() {
                        assert(after[b] == before[b]);
                    } else {
                        assert(map_of(before).contains_key(before[a].0));
                    }
                }
            }
            assert forall|q: K::V| #[trigger] target.contains_key(q) implies has_key(after, q) by {
                if q == kv {
                    assert(after[before.len() as int].0 == q);
                } else {
                    assert(map_of(before).contains_key(q));
                    let j = row_of(before, q);
                    assert(has_key(before, q));
                    assert(before[j].0 == q);
                    assert(after[j].0 == q);
                }
            }
            assert forall|j: int| 0 <= j < after.len() implies target.contains_key(
                #[trigger] after[j].0,
            ) && target[after[j].0] == after[j].1 by {
                if j < before.len() {
                    assert(after[j] == before[j]);
                    assert(map_of(before).contains_key(before[j].0));
                }
            }
            lemma_same_map(after, target);
        }
        self.rows = rows;
    }

    /// Keeps the rows that `choice` picks, and hands out the others.
    pub fn part<C: Choice<K, W>>(&mut self, choice: &C) -> (r: Vec<(K, W)>)
        ensures
            final(self)@ == kept(old(self)@, |k: K::V, w: W::V| choice.picks(k, w)),
            distinct_keys(row_views(r@)),
            map_of(row_views(r@)) == kept(old(self)@, |k: K::V, w: W::V| !choice.picks(k, w)),
    {
        let ghost p = |k: K::V, w: W::V| choice.picks(k, w);
        let ghost q = |k: K::V, w: W::V| !choice.picks(k, w);
        proof {
            use_type_invariant(&*self);
        }
        let ghost before = self.spec_rows();
        let mut old_rows: Vec<(K, W)> = Vec::new();
        std::mem::swap(&mut old_rows, &mut self.rows);
        let ghost full = old_rows@;
        let mut rows: Vec<(K, W)> = Vec::new();
        let mut rest: Vec<(K, W)> = Vec::new();
        let ghost mut from: Seq<int> = Seq::empty();
        let ghost mut back: Seq<int> = Seq::empty();
        let mut n: usize = old_rows.len();
        while n > 0
            invariant
                n == old_rows@.len(),
                n <= full.len(),
                old_rows@ == full.take(n as int),
                before == row_views(full),
                p == (|k: K::V, w: W::V| choice.picks(k, w)),
                q == (|k: K::V, w: W::V| !choice.picks(k, w)),
                picked(before, n as int, from, row_views(rows@), p),
                picked(before, n as int, back, row_views(rest@), q),
            decreases n,
        {
            n = n - 1;
            let row = old_rows.pop().unwrap();
            assert(old_rows@ =~= full.take(n as int));
            assert(row == full[n as int]);
            let ghost seen = before[n as int];
            assert(seen == (row.0@, row.1@));
            let ghost kept_before = row_views(rows@);
            let ghost rest_before = row_views(rest@);
            if choice.check(&row.0, &row.1) {
                rows.push(row);
                assert(row_views(rows@) =~= kept_before.push(seen));
                proof {
                    lemma_picked_step(before, n as int, from, kept_before, p);
                    lemma_picked_step(before, n as int, back, rest_before, q);
                    from = from.push(n as int);
                }
            } else {
                rest.push(row);
                assert(row_views(rest@) =~= rest_before.push(seen));
                proof {
                    lemma_picked_step(before, n as int, from, kept_before, p);
                    lemma_picked_step(before, n as int, back, rest_before, q);
                    back = back.push(n as int);
                }
            }
        }
        proof {
            lemma_picked(before, from, row_views(rows@), p);
            lemma_picked(before, back, row_views(rest@), q);
        }
        self.rows = rows;
        rest
    }

    /// The key of row `i`.
    pub fn key_at(&self, i: usize) -> (r: &K)
        requires
            i < self.spec_rows().len(),
        ensures
            r@ == self.spec_rows()[i as int].0,
    {
        &self.rows[i].0
    }

    /// The value of row `i`.
    pub fn value_at(&self, i: usize) -> (r: &W)
        requires
            i < self.spec_rows().len(),
        ensures
            r@ == self.spec_rows()[i as int].1,
    {
        &self.rows[i].1
    }
}

} // verus!
