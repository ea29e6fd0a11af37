//! Lists of what a set or a table holds.

use vstd::prelude::*;
use crate::rows::Key;
use crate::table::Table;
#[allow(unused_imports)]
use crate::rows::{has_key, lemma_map_of, row_of};
#[allow(unused_imports)]
use crate::table::ref_views;

verus! {

/// `list` holds what `set` holds, each item once.
pub open spec fn is_listing<A>(list: Seq<A>, set: Set<A>) -> bool {
    &&& list.no_duplicates()
    &&& forall|x: A| #[trigger] list.contains(x) <==> set.contains(x)
    &&& set.finite()
    &&& list.len() == set.len()
}

/// A list without repeats lists its set.
pub proof fn lemma_listing<A>(list: Seq<A>, set: Set<A>)
    requires
        list.no_duplicates(),
        forall|x: A| #[trigger] list.contains(x) <==> set.contains(x),
    ensures
        is_listing(list, set),
{
    assert(list.to_set() =~= set);
    list.unique_seq_to_set();
}

/// What a longer list contains.
pub proof fn lemma_contains_push<A>(s: Seq<A>, a: A, x: A)
    ensures
        s.push(a).contains(x) <==> (s.contains(x) || x == a),
{
    let t = s.push(a);
    if s.contains(x) {
        let i = choose|i: int| 0 <= i < s.len() && s[i] == x;
        assert(t[i] == x);
    }
    assert(t[s.len() as int] == a);
}

/// The keys of more rows.
pub proof fn lemma_has_key_push<A, B>(rows: Seq<(A, B)>, row: (A, B), k: A)
    ensures
        has_key(rows.push(row), k) <==> (has_key(rows, k) || k == row.0),
{
    let t = rows.push(row);
    if has_key(rows, k) {
        let i = row_of(rows, k);
        assert(t[i].0 == k);
    }
    assert(t[rows.len() as int] == row);
    if has_key(t, k) {
        let i = row_of(t, k);
        if i < rows.len() {
            assert(rows[i].0 == k);
        }
    }
}

/// A key that is its own view and has a number of its own.
pub trait Numbered: Key<V = Self> + Copy {
    spec fn num(self) -> int;

    fn number(self) -> (r: u64)
        ensures
            r == self.num(),
    ;

    proof fn one_each(a: Self, b: Self)
        requires
            a.num() == b.num(),
        ensures
            a == b,
    ;

    proof fn plain(a: Self)
        ensures
            a@ == a,
    ;
}

impl Numbered for u32 {
    open spec fn num(self) -> int {
        self as int
    }

    fn number(self) -> (r: u64) {
        self as u64
    }

    proof fn one_each(a: u32, b: u32) {
    }

    proof fn plain(a: u32) {
    }
}

impl Numbered for usize {
    open spec fn num(self) -> int {
        self as int
    }

    fn number(self) -> (r: u64) {
        self as u64
    }

    proof fn one_each(a: usize, b: usize) {
    }

    proof fn plain(a: usize) {
    }
}

/// Each item has a greater number than those before it.
pub open spec fn rising<K: Numbered>(list: Seq<K>) -> bool {
    forall|i: int, j: int| 0 <= i < j < list.len() ==> list[i].num() < list[j].num()
}

/// A rising list has no repeats.
pub proof fn lemma_rising<K: Numbered>(list: Seq<K>)
    requires
        rising(list),
    ensures
        list.no_duplicates(),
{
}

/// Puts `k` where it belongs in a rising list that may have it already.
pub fn put<K: Numbered>(list: &mut Vec<K>, k: K)
    requires
        rising(old(list)@),
    ensures
        rising(final(list)@),
        forall|x: K| #[trigger] final(list)@.contains(x) <==> (old(list)@.contains(x) || x == k),
{
    let ghost before = list@;
    let mut i: usize = list.len();
    while i > 0 && list[i - 1].number() > k.number()
        invariant
            i <= list@.len(),
            list@ == before,
            forall|j: int| i <= j < list@.len() ==> (#[trigger] list@[j]).num() > k.num(),
        decreases i,
    {
        i = i - 1;
    }
    if i > 0 && list[i - 1].number() == k.number() {
        proof {
            K::one_each(before[i - 1], k);
            assert(before.contains(k));
        }
        return;
    }
    list.insert(i, k);
    proof {
        let after = list@;
        assert forall|a: int, b: int| 0 <= a < b < after.len() implies after[a].num()
            < after[b].num() by {
            let a0 = if a < i { a } else { a - 1 };
            let b0 = if b < i { b } else { b - 1 };
            if a != i && b != i {
                assert(before[a0].num() < before[b0].num());
            } else if b == i {
                if a < i - 1 {
                    assert(before[a].num() < before[i - 1].num());
                }
            } else {
                assert(before[b0].num() > k.num());
            }
        }
        assert forall|x: K| #[trigger] after.contains(x) <==> (before.contains(x) || x == k) by {
            if before.contains(x) {
                let j = choose|j: int| 0 <= j < before.len() && before[j] == x;
                assert(after[if j < i { j } else { j + 1 }] == x);
            }
            assert(after[i as int] == k);
            if after.contains(x) {
                let j = choose|j: int| 0 <= j < after.len() && after[j] == x;
                if j != i {
                    assert(before[if j < i { j } else { j - 1 }] == x);
                }
            }
        }
    }
}

/// Puts the keys of `t` where they belong in a rising list.
pub fn put_keys<K: Numbered, W: View>(list: &mut Vec<K>, t: &Table<K, W>)
    requires
        rising(old(list)@),
    ensures
        rising(final(list)@),
        forall|x: K| #[trigger]
            final(list)@.contains(x) <==> (old(list)@.contains(x) || t@.contains_key(x)),
{
    let ghost before = list@;
    let all = t.rows();
    let ghost rows = ref_views(all@);
    let mut i: usize = 0;
    while i < all.len()
        invariant
            i <= all@.len(),
            rows == ref_views(all@),
            rising(list@),
            forall|x: K| #[trigger]
                list@.contains(x) <==> (before.contains(x) || has_key(rows.take(i as int), x)),
        decreases all@.len() - i,
    {
        let k: K = *all[i].0;
        let ghost prev = list@;
        let ghost head = rows.take(i as int);
        put(list, k);
        proof {
            assert(rows.take(i + 1) =~= head.push(rows[i as int]));
            assert(k@ == rows[i as int].0);
            K::plain(k);
            assert forall|x: K| #[trigger] list@.contains(x) <==> (before.contains(x) || has_key(
                rows.take(i + 1),
                x,
            )) by {
                lemma_has_key_push(head, rows[i as int], x);
                assert(prev.contains(x) <==> (before.contains(x) || has_key(head, x)));
            }
        }
        i = i + 1;
    }
    proof {
        assert(rows.take(i as int) =~= rows);
        lemma_map_of(rows);
        assert forall|x: K| #[trigger] list@.contains(x) <==> (before.contains(x)
            || t@.contains_key(x)) by {
            assert(t@.contains_key(x) <==> has_key(rows, x));
        }
    }
}

/// The keys of a table in rising order.
pub fn keys_of<K: Numbered, W: View>(t: &Table<K, W>) -> (r: Vec<K>)
    ensures
        rising(r@),
        is_listing(r@, t@.dom()),
{
    let mut list: Vec<K> = Vec::new();
    put_keys(&mut list, t);
    proof {
        lemma_rising(list@);
        lemma_listing(list@, t@.dom());
    }
    list
}

} // verus!
