use onebrc::table::{merge_sample, INITIAL_CAPACITY};
use onebrc::{insert_or_update, merge_into, Sample, Table};

fn table_of(rows: &[(&[u8], i64)]) -> Table {
    let mut t = Table::new();
    for (k, v) in rows {
        insert_or_update(&mut t, k, *v);
    }
    t
}

fn sample_of(values: &[i64]) -> Sample {
    let mut s = Sample::default();
    for v in values {
        s.add(*v);
    }
    s
}

fn sorted(t: &Table) -> Vec<(Vec<u8>, Sample)> {
    let mut e = t.entries();
    e.sort_by(|a, b| a.0.cmp(&b.0));
    e
}

#[test]
fn new_table_is_empty() {
    let t = Table::new();
    assert_eq!(t.rows(), 0);
    assert_eq!(t.entries().len(), 0);
    assert_eq!(t.get(b"X"), None);
    assert_eq!(t.get(b""), None);
}

#[test]
fn first_row_of_a_key_creates_its_sample() {
    let mut t = Table::new();
    insert_or_update(&mut t, b"X", 12_300_000_000);
    let s = t.get(b"X").unwrap();
    assert_eq!(s.min(), 12_300_000_000);
    assert_eq!(s.max(), 12_300_000_000);
    assert_eq!(s.sum(), 12_300_000_000);
    assert_eq!(s.count(), 1);
    assert_eq!(t.rows(), 1);
    assert_eq!(t.get(b"Y"), None);
}

#[test]
fn further_rows_of_a_key_update_its_sample() {
    let t = table_of(&[(b"X", 5), (b"Y", 1), (b"X", -3), (b"X", 9)]);
    assert_eq!(t.get(b"X"), Some(sample_of(&[5, -3, 9])));
    assert_eq!(t.get(b"Y"), Some(sample_of(&[1])));
    assert_eq!(t.rows(), 4);
    assert_eq!(t.entries().len(), 2);
}

#[test]
fn keys_are_told_apart_by_their_bytes() {
    let t = table_of(&[(b"ab", 1), (b"a", 2), (b"", 3), (b"ab\0", 4), (b"AB", 5), (b"ab", 6)]);
    assert_eq!(t.get(b"ab"), Some(sample_of(&[1, 6])));
    assert_eq!(t.get(b"a"), Some(sample_of(&[2])));
    assert_eq!(t.get(b""), Some(sample_of(&[3])));
    assert_eq!(t.get(b"ab\0"), Some(sample_of(&[4])));
    assert_eq!(t.get(b"AB"), Some(sample_of(&[5])));
    assert_eq!(t.get(b"b"), None);
    assert_eq!(t.entries().len(), 5);
}

#[test]
fn entries_hold_every_key_once() {
    let t = table_of(&[(b"b", 1), (b"a", 2), (b"c", 3), (b"a", 4)]);
    assert_eq!(
        sorted(&t),
        vec![
            (b"a".to_vec(), sample_of(&[2, 4])),
            (b"b".to_vec(), sample_of(&[1])),
            (b"c".to_vec(), sample_of(&[3])),
        ]
    );
}

#[test]
fn table_grows_beyond_its_initial_capacity() {
    let mut t = Table::new();
    let n = 3 * INITIAL_CAPACITY;
    for i in 0..n {
        let key = format!("key{}", i);
        insert_or_update(&mut t, key.as_bytes(), i as i64);
        insert_or_update(&mut t, key.as_bytes(), -(i as i64));
    }
    assert_eq!(t.entries().len(), n);
    assert_eq!(t.rows(), 2 * n as u64);
    for i in 0..n {
        let key = format!("key{}", i);
        assert_eq!(t.get(key.as_bytes()), Some(sample_of(&[i as i64, -(i as i64)])));
    }
}

#[test]
fn merge_sample_creates_or_merges() {
    let mut t = table_of(&[(b"a", 1)]);
    merge_sample(&mut t, b"a", &sample_of(&[5, 7]));
    merge_sample(&mut t, b"b", &sample_of(&[2, 3]));
    assert_eq!(t.get(b"a"), Some(sample_of(&[1, 5, 7])));
    assert_eq!(t.get(b"b"), Some(sample_of(&[2, 3])));
    assert_eq!(t.rows(), 5);
}

#[test]
fn merge_into_merges_key_by_key() {
    let mut dst = table_of(&[(b"a", 1), (b"b", 2), (b"a", 3)]);
    let src = table_of(&[(b"b", 10), (b"c", 20), (b"c", 30)]);
    merge_into(&mut dst, src);
    assert_eq!(dst.get(b"a"), Some(sample_of(&[1, 3])));
    assert_eq!(dst.get(b"b"), Some(sample_of(&[2, 10])));
    assert_eq!(dst.get(b"c"), Some(sample_of(&[20, 30])));
    assert_eq!(dst.rows(), 6);
    assert_eq!(dst.entries().len(), 3);
}

#[test]
fn merge_into_with_an_empty_table_changes_nothing() {
    let mut dst = table_of(&[(b"a", 1), (b"b", 2)]);
    merge_into(&mut dst, Table::new());
    assert_eq!(sorted(&dst), sorted(&table_of(&[(b"a", 1), (b"b", 2)])));
    let mut empty = Table::new();
    merge_into(&mut empty, table_of(&[(b"a", 1), (b"b", 2)]));
    assert_eq!(sorted(&empty), sorted(&dst));
    assert_eq!(empty.rows(), 2);
}

#[test]
fn merge_into_gives_the_same_in_any_order() {
    let parts: [&[(&[u8], i64)]; 3] = [
        &[(b"a", 1), (b"b", 2)],
        &[(b"b", -5), (b"c", 7), (b"a", 9)],
        &[(b"d", 4), (b"a", -1)],
    ];
    let orders = [[0, 1, 2], [0, 2, 1], [1, 0, 2], [1, 2, 0], [2, 0, 1], [2, 1, 0]];
    let mut results = Vec::new();
    for order in orders {
        let mut dst = Table::new();
        for i in order {
            merge_into(&mut dst, table_of(parts[i]));
        }
        assert_eq!(dst.rows(), 7);
        results.push(sorted(&dst));
    }
    for r in &results {
        assert_eq!(r, &results[0]);
    }
}

#[test]
fn merge_into_is_associative_on_an_example() {
    let a: &[(&[u8], i64)] = &[(b"x", 1), (b"y", 2)];
    let b: &[(&[u8], i64)] = &[(b"y", 3), (b"z", 4)];
    let c: &[(&[u8], i64)] = &[(b"x", 5), (b"z", 6)];
    let mut left = table_of(a);
    merge_into(&mut left, table_of(b));
    merge_into(&mut left, table_of(c));
    let mut bc = table_of(b);
    merge_into(&mut bc, table_of(c));
    let mut right = table_of(a);
    merge_into(&mut right, bc);
    assert_eq!(sorted(&left), sorted(&right));
}
