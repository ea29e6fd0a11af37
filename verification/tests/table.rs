use mlatd::hash::{hash_bytes, mix};
use mlatd::listing::{keys_of, put};
use mlatd::rows::{Newer, Rows};
use mlatd::table::{Never, Table};

#[test]
fn a_table_keeps_one_value_per_key() {
    let mut t: Table<u32, i64> = Table::new();
    assert!(t.get(&5).is_none() && t.take(&5).is_none());
    for k in 0..1000u32 {
        t.insert(k * 64, i64::from(k));
    }
    assert_eq!(t.len(), 1000);
    t.insert(64, -1);
    assert_eq!(t.len(), 1000);
    assert_eq!(t.get(&64), Some(&-1));
    assert_eq!(t.get(&(999 * 64)), Some(&999));
    assert!(t.get(&1).is_none());
    assert_eq!(t.take(&64), Some(-1));
    assert!(!t.contains(&64));
    let mut sum = 0;
    for (k, v) in t.rows() {
        assert_eq!(i64::from(*k), v * 64);
        sum += v;
    }
    assert_eq!(sum, 999 * 500 - 1);
}

#[test]
fn text_keys_are_told_apart() {
    let mut t: Table<(String, String), i64> = Table::new();
    for i in 0..100i64 {
        t.insert((format!("a{i}"), "b".into()), i);
        t.insert(("b".into(), format!("a{i}")), -i);
    }
    assert_eq!(t.len(), 200);
    assert_eq!(t.get(&("a7".into(), "b".into())), Some(&7));
    assert_eq!(t.get(&("b".into(), "a7".into())), Some(&-7));
}

#[test]
fn parting_a_table_loses_nothing() {
    let mut t: Table<usize, i64> = Table::new();
    for k in 0..50usize {
        t.insert(k, k as i64);
    }
    let gone = t.part(&Newer { now: 50, limit: 10 });
    let mut gone: Vec<usize> = gone.into_iter().map(|r| r.0).collect();
    gone.sort();
    assert_eq!(gone, (0..=40).collect::<Vec<usize>>());
    assert_eq!(keys_of(&t), (41..50).collect::<Vec<usize>>());
    t.retain(&Never {});
    assert_eq!(t.len(), 0);
}

#[test]
fn a_list_of_rows_finds_its_keys() {
    let mut r: Rows<(usize, usize), i64> = Rows::new();
    r.insert((1, 2), 3);
    r.insert((2, 1), 4);
    r.insert((1, 2), 5);
    assert_eq!(r.len(), 2);
    assert_eq!(r.get(&(1, 2)), Some(&5));
    assert_eq!(r.take(&(2, 1)), Some(4));
    assert!(r.get(&(2, 1)).is_none());
}

#[test]
fn rising_lists_take_each_item_once() {
    let mut v: Vec<u32> = Vec::new();
    for x in [5, 1, 9, 5, 7, 1] {
        put(&mut v, x);
    }
    assert_eq!(v, [1, 5, 7, 9]);
}

#[test]
fn hashes_are_fnv() {
    assert_eq!(hash_bytes(b""), 0xcbf2_9ce4_8422_2325);
    assert_eq!(hash_bytes(b"a"), 0xaf63_dc4c_8601_ec8c);
    assert_eq!(hash_bytes(b"foobar"), 0x8594_4171_f739_67e8);
    assert_ne!(mix(1, 2), mix(2, 1));
}
