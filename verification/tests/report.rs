use onebrc::order::{key_less, sort_entries};
use onebrc::report::{push_entry, push_nat, push_tenths, render, sorted_entries};
use onebrc::{insert_or_update, produce_table, report, Sample, Table};

fn text(bytes: Vec<u8>) -> String {
    String::from_utf8(bytes).unwrap()
}

fn sample_of(values: &[i64]) -> Sample {
    let mut s = Sample::default();
    for v in values {
        s.add(*v);
    }
    s
}

fn tenths(t: i64) -> String {
    let mut out = Vec::new();
    push_tenths(&mut out, t);
    text(out)
}

#[test]
fn empty_input_gives_empty_braces() {
    let t = produce_table(b"", 4096).unwrap();
    assert_eq!(report(&t), b"{}\n".to_vec());
    assert_eq!(report(&Table::new()), b"{}\n".to_vec());
}

#[test]
fn one_row_report() {
    let t = produce_table(b"X;12.3\n", 4096).unwrap();
    assert_eq!(text(report(&t)), "{X=12.3/12.3/12.3}\n");
}

#[test]
fn report_lists_min_mean_max_by_key() {
    let data = b"Oslo;1.5\nRome;20.0\nOslo;-3.5\nAbidjan;30.25\nRome;22.4\nOslo;0\n";
    let t = produce_table(data, 16).unwrap();
    assert_eq!(
        text(report(&t)),
        "{Abidjan=30.2/30.2/30.2, Oslo=-3.5/-0.7/1.5, Rome=20.0/21.2/22.4}\n"
    );
}

#[test]
fn report_rounds_each_number_to_one_place_ties_to_even() {
    let t = produce_table(b"a;0.25\nb;0.35\nc;-0.25\nd;0.05\ne;0.04\nf;-0.04\ng;99.95\n", 4096)
        .unwrap();
    assert_eq!(
        text(report(&t)),
        "{a=0.2/0.2/0.2, b=0.4/0.4/0.4, c=-0.2/-0.2/-0.2, d=0.0/0.0/0.0, e=0.0/0.0/0.0, \
         f=0.0/0.0/0.0, g=100.0/100.0/100.0}\n"
    );
}

#[test]
fn report_mean_is_rounded_from_the_exact_quotient() {
    // 0.1 + 0.2 + 0.2 = 0.5, mean 0.1666.. -> 0.2; 1 + 2 = 3, mean 1.5 -> 1.5
    let t = produce_table(b"k;0.1\nk;0.2\nk;0.2\nm;1\nm;2\nn;0.1\nn;0.2\n", 4096).unwrap();
    assert_eq!(text(report(&t)), "{k=0.1/0.2/0.2, m=1.0/1.5/2.0, n=0.1/0.2/0.2}\n");
}

#[test]
fn report_keys_increase_strictly_and_each_comes_once() {
    let data = b"b;1\na;2\nab;3\nB;4\n;5\naa;6\nb;7\na;8\n~;9\nb\x00;10\n";
    let t = produce_table(data, 8).unwrap();
    let entries = sorted_entries(&t);
    let keys: Vec<Vec<u8>> = entries.iter().map(|e| e.0.clone()).collect();
    let expected: Vec<Vec<u8>> = [&b""[..], b"B", b"a", b"aa", b"ab", b"b", b"b\x00", b"~"]
        .iter()
        .map(|k| k.to_vec())
        .collect();
    assert_eq!(keys, expected);
    for pair in keys.windows(2) {
        assert!(pair[0] < pair[1]);
    }
    for e in &entries {
        assert_eq!(t.get(&e.0), Some(e.1));
    }
    assert_eq!(entries.len(), t.entries().len());
    assert_eq!(
        text(report(&t)),
        "{=5.0/5.0/5.0, B=4.0/4.0/4.0, a=2.0/5.0/8.0, aa=6.0/6.0/6.0, ab=3.0/3.0/3.0, \
         b=1.0/4.0/7.0, b\u{0}=10.0/10.0/10.0, ~=9.0/9.0/9.0}\n"
    );
}

#[test]
fn report_does_not_depend_on_the_order_of_the_rows() {
    let a = produce_table(b"x;1\ny;2\nz;3\nx;4\n", 4096).unwrap();
    let b = produce_table(b"z;3\nx;4\ny;2\nx;1\n", 4096).unwrap();
    assert_eq!(report(&a), report(&b));
}

#[test]
fn report_keeps_the_bytes_of_a_key() {
    let mut t = Table::new();
    insert_or_update(&mut t, "Zürich".as_bytes(), 1_000_000_000);
    insert_or_update(&mut t, b"\xff", 2_000_000_000);
    let mut expected = Vec::new();
    expected.extend_from_slice("{Zürich=1.0/1.0/1.0, ".as_bytes());
    expected.extend_from_slice(b"\xff=2.0/2.0/2.0}\n");
    assert_eq!(report(&t), expected);
}

#[test]
fn report_of_many_keys_is_sorted() {
    let mut t = Table::new();
    for i in 0..500u32 {
        let key = format!("k{}", (i * 7919) % 1000);
        insert_or_update(&mut t, key.as_bytes(), i as i64);
    }
    let entries = sorted_entries(&t);
    assert_eq!(entries.len(), t.entries().len());
    for pair in entries.windows(2) {
        assert!(pair[0].0 < pair[1].0);
    }
}

#[test]
fn numbers_are_written_in_base_ten() {
    let mut out = b"n=".to_vec();
    push_nat(&mut out, 0);
    out.push(b' ');
    push_nat(&mut out, 7);
    out.push(b' ');
    push_nat(&mut out, 10);
    out.push(b' ');
    push_nat(&mut out, 1234567890);
    out.push(b' ');
    push_nat(&mut out, u64::MAX);
    assert_eq!(text(out), "n=0 7 10 1234567890 18446744073709551615");
}

#[test]
fn tenths_are_written_with_one_digit_after_the_point() {
    assert_eq!(tenths(0), "0.0");
    assert_eq!(tenths(5), "0.5");
    assert_eq!(tenths(-5), "-0.5");
    assert_eq!(tenths(123), "12.3");
    assert_eq!(tenths(-123), "-12.3");
    assert_eq!(tenths(1000), "100.0");
    assert_eq!(tenths(i64::MAX), "922337203685477580.7");
    assert_eq!(tenths(i64::MIN), "-922337203685477580.8");
}

#[test]
fn entry_is_key_equals_min_mean_max() {
    let mut out = b"{".to_vec();
    push_entry(&mut out, b"Oslo", &sample_of(&[-3_500_000_000, 1_500_000_000, 0]));
    assert_eq!(text(out), "{Oslo=-3.5/-0.7/1.5");
}

#[test]
fn render_keeps_the_order_of_the_list() {
    let list = vec![
        (b"b".to_vec(), sample_of(&[1_000_000_000])),
        (b"a".to_vec(), sample_of(&[2_000_000_000, 3_000_000_000])),
    ];
    assert_eq!(text(render(&list)), "{b=1.0/1.0/1.0, a=2.0/2.5/3.0}\n");
    assert_eq!(text(render(&Vec::new())), "{}\n");
}

#[test]
fn keys_compare_byte_by_byte() {
    assert!(key_less(b"", b"a"));
    assert!(!key_less(b"", b""));
    assert!(!key_less(b"a", b""));
    assert!(key_less(b"a", b"b"));
    assert!(!key_less(b"b", b"a"));
    assert!(!key_less(b"a", b"a"));
    assert!(key_less(b"a", b"aa"));
    assert!(!key_less(b"aa", b"a"));
    assert!(key_less(b"Z", b"a"));
    assert!(key_less(b"ab", b"b"));
    assert!(key_less(b"a\x7f", b"a\x80"));
    assert!(key_less(b"a\x00", b"a\x01"));
    let keys: [&[u8]; 6] = [b"", b"a", b"ab", b"b", b"\xff", b"a\x00"];
    for a in keys {
        for b in keys {
            assert_eq!(key_less(a, b), a < b);
        }
    }
}

#[test]
fn sort_entries_orders_by_key() {
    let list = vec![
        (b"pear".to_vec(), sample_of(&[1])),
        (b"apple".to_vec(), sample_of(&[2])),
        (b"fig".to_vec(), sample_of(&[3])),
        (b"app".to_vec(), sample_of(&[4])),
        (b"zest".to_vec(), sample_of(&[5])),
    ];
    let sorted = sort_entries(list);
    assert_eq!(
        sorted,
        vec![
            (b"app".to_vec(), sample_of(&[4])),
            (b"apple".to_vec(), sample_of(&[2])),
            (b"fig".to_vec(), sample_of(&[3])),
            (b"pear".to_vec(), sample_of(&[1])),
            (b"zest".to_vec(), sample_of(&[5])),
        ]
    );
    assert_eq!(sort_entries(Vec::new()), Vec::new());
}
