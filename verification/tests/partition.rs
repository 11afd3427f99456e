use onebrc::bytes::{find_byte, NEWLINE, SEPARATOR};
use onebrc::partition::{boundary_in_chunk, partitions_between, split_point};
use onebrc::reducer::Reducer;
use onebrc::{
    aggregate_in_parts, partition, produce_table, report, ParseError, Partition, Sample, Table,
};

fn sorted(t: &Table) -> Vec<(Vec<u8>, Sample)> {
    let mut e = t.entries();
    e.sort_by(|a, b| a.0.cmp(&b.0));
    e
}

fn part(start: u64, end: u64) -> Partition {
    Partition { start, end }
}

fn check_partitioning(data: &[u8], parts: &[Partition]) {
    assert_eq!(parts[0].start, 0);
    assert_eq!(parts[parts.len() - 1].end, data.len() as u64);
    for p in parts {
        assert!(p.start <= p.end);
        let end = p.end as usize;
        assert!(end == 0 || end == data.len() || data[end - 1] == b'\n');
    }
    for pair in parts.windows(2) {
        assert_eq!(pair[0].end, pair[1].start);
    }
}

#[test]
fn find_byte_finds_the_first_from_the_start_given() {
    let s = b"ab;cd;e\n";
    assert_eq!(find_byte(s, 0, SEPARATOR), 2);
    assert_eq!(find_byte(s, 2, SEPARATOR), 2);
    assert_eq!(find_byte(s, 3, SEPARATOR), 5);
    assert_eq!(find_byte(s, 6, SEPARATOR), 8);
    assert_eq!(find_byte(s, 0, NEWLINE), 7);
    assert_eq!(find_byte(s, 8, NEWLINE), 8);
    assert_eq!(find_byte(b"", 0, NEWLINE), 0);
}

#[test]
fn split_points_are_multiples_of_the_share() {
    assert_eq!(split_point(100, 4, 0), 0);
    assert_eq!(split_point(100, 4, 1), 25);
    assert_eq!(split_point(100, 4, 3), 75);
    assert_eq!(split_point(100, 4, 4), 100);
    assert_eq!(split_point(10, 3, 1), 3);
    assert_eq!(split_point(10, 3, 2), 6);
    assert_eq!(split_point(10, 3, 3), 9);
    assert_eq!(split_point(2, 5, 4), 0);
    assert_eq!(split_point(0, 1, 1), 0);
    assert_eq!(split_point(u64::MAX, 1, 1), u64::MAX);
    assert_eq!(split_point(u64::MAX, u64::MAX, u64::MAX), u64::MAX);
}

#[test]
fn boundary_lies_right_after_the_first_newline_of_the_chunk() {
    assert_eq!(boundary_in_chunk(b"ab\ncd\n", 100), Some(103));
    assert_eq!(boundary_in_chunk(b"\nab", 7), Some(8));
    assert_eq!(boundary_in_chunk(b"abc", 7), None);
    assert_eq!(boundary_in_chunk(b"", 7), None);
    assert_eq!(boundary_in_chunk(b"ab\n", u64::MAX - 3), Some(u64::MAX));
}

#[test]
fn a_partition_knows_its_length_and_whether_it_reaches_the_end() {
    assert_eq!(part(10, 25).len(), 15);
    assert_eq!(part(10, 10).len(), 0);
    assert_eq!(part(25, 10).len(), 0);
    assert!(part(10, 25).reaches_end(25));
    assert!(part(25, 25).reaches_end(25));
    assert!(!part(10, 25).reaches_end(30));
}

#[test]
fn partitions_lie_between_the_boundaries() {
    assert_eq!(
        partitions_between(30, &vec![10, 10, 25]),
        Some(vec![part(0, 10), part(10, 10), part(10, 25), part(25, 30)])
    );
    assert_eq!(partitions_between(30, &vec![]), Some(vec![part(0, 30)]));
    assert_eq!(partitions_between(0, &vec![0, 0]), Some(vec![part(0, 0), part(0, 0), part(0, 0)]));
    assert_eq!(partitions_between(30, &vec![30, 30]), Some(vec![part(0, 30), part(30, 30), part(30, 30)]));
    assert_eq!(partitions_between(30, &vec![10, 9]), None);
    assert_eq!(partitions_between(30, &vec![10, 31]), None);
    assert_eq!(partitions_between(30, &vec![31]), None);
}

#[test]
fn partition_moves_each_split_point_behind_the_next_newline() {
    //            0         1         2
    //            0123456789012345678901234567
    let data = b"aa;1\nbbbb;2\ncc;3\ndddddd;4\ne;5\n";
    assert_eq!(data.len(), 30);
    assert_eq!(partition(data, 1), vec![part(0, 30)]);
    // 15 lies in "cc;3\n", which ends at 17
    assert_eq!(partition(data, 2), vec![part(0, 17), part(17, 30)]);
    // 10 lies in "bbbb;2\n" (ends at 12), 20 in "dddddd;4\n" (ends at 26)
    assert_eq!(partition(data, 3), vec![part(0, 12), part(12, 26), part(26, 30)]);
    for n in 1..=40 {
        let parts = partition(data, n);
        assert_eq!(parts.len(), n);
        check_partitioning(data, &parts);
    }
}

#[test]
fn split_points_in_one_row_give_empty_partitions() {
    let data = b"a;1\nlonglonglonglonglonglong;2\nb;3\n";
    let parts = partition(data, 6);
    check_partitioning(data, &parts);
    assert!(parts.iter().any(|p| p.start == p.end));
    assert_eq!(parts.iter().map(|p| p.end - p.start).sum::<u64>(), data.len() as u64);
}

#[test]
fn split_without_a_newline_behind_it_collapses_to_the_end() {
    let data = b"a;1\nb;2";
    assert_eq!(partition(data, 2), vec![part(0, 4), part(4, 7)]);
    // the split points 1, 2 and 3 lie in the first row, 4, 5 and 6 in the last
    assert_eq!(
        partition(data, 7),
        vec![
            part(0, 4),
            part(4, 4),
            part(4, 4),
            part(4, 7),
            part(7, 7),
            part(7, 7),
            part(7, 7),
        ]
    );
    let none = b"no newline at all;1";
    assert_eq!(partition(none, 3), vec![part(0, 19), part(19, 19), part(19, 19)]);
    assert_eq!(partition(b"", 3), vec![part(0, 0), part(0, 0), part(0, 0)]);
}

#[test]
fn aggregating_in_parts_gives_the_table_of_a_single_pass() {
    let data = b"Oslo;1.5\nRome;20.0\nOslo;-3.5\nAbidjan;30.25\nRome;22.4\nOslo;0\nLima;18\nLima;19.5\n";
    let single = produce_table(data, data.len()).unwrap();
    let rows = data.iter().filter(|b| **b == b'\n').count();
    for workers in 1..=rows + 3 {
        let parted = aggregate_in_parts(data, workers, 16).unwrap();
        assert_eq!(sorted(&parted), sorted(&single), "{} workers", workers);
        assert_eq!(parted.rows(), rows as u64);
        assert_eq!(report(&parted), report(&single));
    }
}

#[test]
fn aggregating_in_parts_by_hand_gives_the_table_of_a_single_pass() {
    let data = b"a;1\nb;2\na;3\nc;4\nb;5\na;6";
    let single = produce_table(data, 4096).unwrap();
    for n in 1..=8 {
        let parts = partition(data, n);
        let mut reducer = Reducer::new(n);
        for p in parts.iter().rev() {
            let slice = &data[p.start as usize..p.end as usize];
            let outcome = produce_table(slice, 4096);
            assert!(reducer.fits(outcome.as_ref().unwrap()));
            reducer.accept(outcome);
        }
        assert!(reducer.is_complete());
        let merged = reducer.finish().unwrap();
        assert_eq!(sorted(&merged), sorted(&single));
    }
}

#[test]
fn aggregating_in_parts_fails_as_a_whole() {
    let data = b"a;1\nb;2\nbad\nc;4\nd;x\n";
    for workers in 1..=6 {
        match aggregate_in_parts(data, workers, 4096) {
            Ok(_) => panic!("expected an error"),
            Err(e) => assert_eq!(e, ParseError::MissingSeparator),
        }
    }
    match aggregate_in_parts(b"a;1\nabcdefghijklmnop;2\n", 2, 3) {
        Ok(_) => panic!("expected an error"),
        Err(e) => assert_eq!(e, ParseError::RowTooLarge),
    }
    assert_eq!(report(&aggregate_in_parts(b"", 4, 8).unwrap()), b"{}\n".to_vec());
}

#[test]
fn reducer_merges_in_any_order_of_arrival() {
    let tables = |order: [usize; 3]| {
        let inputs: [&[u8]; 3] = [b"a;1\nb;2\n", b"b;3\nc;4\n", b"a;5\n"];
        let mut reducer = Reducer::new(3);
        assert!(!reducer.is_complete());
        for i in order {
            reducer.accept(produce_table(inputs[i], 4096));
        }
        assert!(reducer.is_complete());
        assert_eq!(reducer.rows(), 5);
        reducer.finish().unwrap()
    };
    let first = sorted(&tables([0, 1, 2]));
    for order in [[0, 2, 1], [1, 0, 2], [1, 2, 0], [2, 0, 1], [2, 1, 0]] {
        assert_eq!(sorted(&tables(order)), first);
    }
}

#[test]
fn reducer_keeps_the_first_failure_and_reports_no_table() {
    let mut reducer = Reducer::new(4);
    reducer.accept(produce_table(b"a;1\n", 4096));
    reducer.accept(Err(ParseError::InvalidDigit));
    reducer.accept(produce_table(b"b;2\n", 4096));
    assert_eq!(reducer.rows(), 1);
    reducer.accept(Err(ParseError::MissingNewline));
    assert!(reducer.is_complete());
    match reducer.finish() {
        Ok(_) => panic!("expected an error"),
        Err(e) => assert_eq!(e, ParseError::InvalidDigit),
    }
}

#[test]
fn reducer_that_expects_nothing_gives_an_empty_table() {
    let reducer = Reducer::new(0);
    assert!(reducer.is_complete());
    assert_eq!(reducer.finish().unwrap().rows(), 0);
}

#[test]
fn every_error_has_a_message() {
    let all = [
        ParseError::MissingSeparator,
        ParseError::MissingNewline,
        ParseError::InvalidDigit,
        ParseError::RowTooLarge,
        ParseError::OutOfRange,
    ];
    for (i, a) in all.iter().enumerate() {
        assert!(!a.message().is_empty());
        for b in &all[i + 1..] {
            assert_ne!(a.message(), b.message());
        }
    }
}
