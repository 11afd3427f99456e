use onebrc::rows::record_row;
use onebrc::tokenizer::MAX_SPANS;
use onebrc::{produce_table, LineTokenizer, ParseError, Sample, ScanState, Table};

fn sample_of(values: &[i64]) -> Sample {
    let mut s = Sample::default();
    for v in values {
        s.add(*v);
    }
    s
}

fn sorted(t: &Table) -> Vec<(Vec<u8>, Sample)> {
    let mut e = t.entries();
    e.sort_by(|a, b| a.0.cmp(&b.0));
    e
}

fn error_of(r: Result<Table, ParseError>) -> ParseError {
    match r {
        Ok(_) => panic!("expected an error"),
        Err(e) => e,
    }
}

const UNIT: i64 = 1_000_000_000;

#[test]
fn one_row_into_an_empty_table() {
    let t = produce_table(b"X;12.3\n", 4096).unwrap();
    let s = t.get(b"X").unwrap();
    assert_eq!(s.min(), 12_300_000_000);
    assert_eq!(s.max(), 12_300_000_000);
    assert_eq!(s.sum(), 12_300_000_000);
    assert_eq!(s.count(), 1);
    assert_eq!(s.min() as f64 / UNIT as f64, 12.3);
    assert_eq!(t.rows(), 1);
    assert_eq!(t.entries().len(), 1);
}

#[test]
fn value_without_fraction_digits() {
    let t = produce_table(b"Y;7\n", 4096).unwrap();
    assert_eq!(t.get(b"Y"), Some(sample_of(&[7 * UNIT])));
    assert_eq!(t.get(b"Y").unwrap().min() as f64 / UNIT as f64, 7.0);
}

#[test]
fn empty_input_gives_an_empty_table() {
    let t = produce_table(b"", 4096).unwrap();
    assert_eq!(t.rows(), 0);
    assert_eq!(t.entries().len(), 0);
}

#[test]
fn rows_are_aggregated_by_key() {
    let data = b"Oslo;1.5\nRome;20.0\nOslo;-3.5\nRome;22.4\nOslo;0\n";
    let t = produce_table(data, 4096).unwrap();
    assert_eq!(t.get(b"Oslo"), Some(sample_of(&[1_500_000_000, -3_500_000_000, 0])));
    assert_eq!(t.get(b"Rome"), Some(sample_of(&[20_000_000_000, 22_400_000_000])));
    assert_eq!(t.rows(), 5);
}

#[test]
fn end_of_input_terminates_the_last_row() {
    let with = produce_table(b"a;1\nb;2\n", 4096).unwrap();
    let without = produce_table(b"a;1\nb;2", 4096).unwrap();
    assert_eq!(sorted(&with), sorted(&without));
    assert_eq!(without.rows(), 2);
}

#[test]
fn key_may_hold_any_byte_but_separator_and_newline() {
    let data = b"\xff\x00 =/{}.-;1\n;2\n";
    let t = produce_table(data, 4096).unwrap();
    assert_eq!(t.get(b"\xff\x00 =/{}.-"), Some(sample_of(&[UNIT])));
    assert_eq!(t.get(b""), Some(sample_of(&[2 * UNIT])));
}

#[test]
fn page_boundaries_do_not_matter() {
    let data = b"Oslo;1.5\nRome;20.0\nOslo;-3.5\nAbidjan;30.25\nRome;22.4\nOslo;0\nX;7";
    let whole = sorted(&produce_table(data, data.len()).unwrap());
    assert_eq!(whole.len(), 4);
    // the longest row, "Abidjan;30.25\n", has 14 bytes
    for page_size in 14..=data.len() + 1 {
        let paged = produce_table(data, page_size).unwrap();
        assert_eq!(sorted(&paged), whole, "page size {}", page_size);
        assert_eq!(paged.rows(), 7);
    }
    // with smaller pages a row may reach a third page; nothing else goes wrong
    for page_size in 1..14 {
        match produce_table(data, page_size) {
            Ok(paged) => assert_eq!(sorted(&paged), whole, "page size {}", page_size),
            Err(e) => assert_eq!(e, ParseError::RowTooLarge, "page size {}", page_size),
        }
    }
}

#[test]
fn boundary_inside_key_inside_value_and_between_separator_and_newline() {
    // rows of 6 bytes with the newline; with these page sizes none reaches a third page
    let data = b"ab;12\ncd;34\nab;56\n";
    let expected = vec![
        (b"ab".to_vec(), sample_of(&[12 * UNIT, 56 * UNIT])),
        (b"cd".to_vec(), sample_of(&[34 * UNIT])),
    ];
    for page_size in [3, 4, 5, 6, 7] {
        let t = produce_table(data, page_size).unwrap();
        assert_eq!(sorted(&t), expected, "page size {}", page_size);
    }
    let mut tok = LineTokenizer::new();
    // the pages end inside a key, between separator and value, and before the newline
    for page in [&b"a"[..], b"b;12\ncd;", b"34\nab;56", b"\n"] {
        tok.feed(page).unwrap();
    }
    assert_eq!(sorted(&tok.finish(false).unwrap()), expected);
}

#[test]
fn a_row_may_end_on_the_second_page_it_touches() {
    let mut tok = LineTokenizer::new();
    tok.feed(b"k;1\nlong").unwrap();
    tok.feed(b"key;12.5\nz;1\n").unwrap();
    let t = tok.finish(false).unwrap();
    assert_eq!(t.get(b"longkey"), Some(sample_of(&[12_500_000_000])));
    assert_eq!(t.get(b"z"), Some(sample_of(&[UNIT])));
    assert_eq!(t.rows(), 3);
    // a row of 8 bytes on two pages of 4 bytes
    let t = produce_table(b"abcd;12\n", 4).unwrap();
    assert_eq!(t.get(b"abcd"), Some(sample_of(&[12 * UNIT])));
}

#[test]
fn a_row_that_reaches_a_third_page_is_too_large() {
    assert_eq!(MAX_SPANS, 2);
    let mut tok = LineTokenizer::new();
    tok.feed(b"k;1\nlong").unwrap();
    tok.feed(b"key").unwrap();
    assert_eq!(tok.feed(b";12"), Err(ParseError::RowTooLarge));
    // the third page is rejected even if it would complete the row
    let mut tok = LineTokenizer::new();
    tok.feed(b"k;1\nlong").unwrap();
    tok.feed(b"key;1").unwrap();
    assert_eq!(tok.feed(b"2.5\nz;1\n"), Err(ParseError::RowTooLarge));
    // a row of 11 bytes lies on three pages of 4 bytes
    assert_eq!(error_of(produce_table(b"abcdefgh;1\n", 4)), ParseError::RowTooLarge);
    assert_eq!(error_of(produce_table(b"abcdefgh;12\n", 3)), ParseError::RowTooLarge);
    // the second of two rows of 7 bytes lies on the pages "c", "d;2." and "5\n"
    assert_eq!(error_of(produce_table(b"ab;1.5\ncd;2.5\n", 4)), ParseError::RowTooLarge);
    assert_eq!(error_of(produce_table(b"a;1\nabcdefghijk;12\n", 4)), ParseError::RowTooLarge);
    // with pages as long as the longest row no row reaches a third page
    assert!(produce_table(b"abcdefgh;1\n", 11).is_ok());
    assert!(produce_table(b"ab;1.5\ncd;2.5\n", 7).is_ok());
}

#[test]
fn a_last_row_without_newline_may_lie_on_two_pages() {
    // "bc;2" begins on the first page and ends, with the input, on the second
    let t = produce_table(b"a;1\nbc;2", 5).unwrap();
    assert_eq!(t.get(b"a"), Some(sample_of(&[UNIT])));
    assert_eq!(t.get(b"bc"), Some(sample_of(&[2 * UNIT])));
    let mut tok = LineTokenizer::new();
    tok.feed(b"a;1\nb").unwrap();
    tok.feed(b"c;2").unwrap();
    assert_eq!(tok.finish(true).unwrap().rows(), 2);
    let mut tok = LineTokenizer::new();
    tok.feed(b"a;1\nb").unwrap();
    tok.feed(b"c;2").unwrap();
    assert_eq!(error_of(tok.finish(false)), ParseError::MissingNewline);
    // on three pages it is too large
    assert_eq!(error_of(produce_table(b"a;1\nbcdefghi;2", 5)), ParseError::RowTooLarge);
}

#[test]
fn an_empty_page_changes_nothing() {
    let mut tok = LineTokenizer::new();
    tok.feed(b"").unwrap();
    tok.feed(b"ab").unwrap();
    tok.feed(b"").unwrap();
    tok.feed(b"").unwrap();
    tok.feed(b"c;5\n").unwrap();
    tok.feed(b"").unwrap();
    let t = tok.finish(false).unwrap();
    assert_eq!(t.get(b"abc"), Some(sample_of(&[5 * UNIT])));
}

#[test]
fn tokenizer_reports_what_it_scans_for() {
    let mut tok = LineTokenizer::new();
    assert_eq!(tok.state(), ScanState::ScanningForSeparator);
    assert_eq!(tok.pending_len(), 0);
    tok.feed(b"a;1\nOs").unwrap();
    assert_eq!(tok.state(), ScanState::ScanningForSeparator);
    assert_eq!(tok.pending_len(), 2);
    assert_eq!(tok.rows(), 1);
    tok.feed(b"lo;1").unwrap();
    assert_eq!(tok.state(), ScanState::ScanningForNewline);
    assert_eq!(tok.pending_len(), 6);
    let mut tok = LineTokenizer::new();
    tok.feed(b"a;1\nOslo;1").unwrap();
    assert_eq!(tok.state(), ScanState::ScanningForNewline);
    tok.feed(b"2\n").unwrap();
    assert_eq!(tok.state(), ScanState::ScanningForSeparator);
    assert_eq!(tok.pending_len(), 0);
    assert_eq!(tok.rows(), 2);
    tok.feed(b"x;1\ny;").unwrap();
    assert_eq!(tok.state(), ScanState::ScanningForNewline);
    assert!(tok.fits(1 << 20));
}

#[test]
fn unfinished_last_row_is_recorded_at_the_end_of_the_file_only() {
    let mut tok = LineTokenizer::new();
    tok.feed(b"a;1\nb;2").unwrap();
    let t = tok.finish(true).unwrap();
    assert_eq!(t.get(b"b"), Some(sample_of(&[2 * UNIT])));
    assert_eq!(t.rows(), 2);

    let mut tok = LineTokenizer::new();
    tok.feed(b"a;1\nb;2").unwrap();
    assert_eq!(error_of(tok.finish(false)), ParseError::MissingNewline);

    let mut tok = LineTokenizer::new();
    tok.feed(b"a;1\nb;2\n").unwrap();
    assert_eq!(tok.finish(false).unwrap().rows(), 2);
}

#[test]
fn row_without_separator_is_rejected() {
    assert_eq!(error_of(produce_table(b"a;1\nnoseparator\nb;2\n", 4096)), ParseError::MissingSeparator);
    assert_eq!(error_of(produce_table(b"\n", 4096)), ParseError::MissingSeparator);
    assert_eq!(error_of(produce_table(b"a;1\n\nb;2\n", 4096)), ParseError::MissingSeparator);
    assert_eq!(error_of(produce_table(b"tail", 4096)), ParseError::MissingSeparator);
    assert_eq!(error_of(produce_table(b"a;1\nnosep\n", 5)), ParseError::MissingSeparator);
}

#[test]
fn row_with_a_bad_value_is_rejected() {
    assert_eq!(error_of(produce_table(b"a;1x\n", 4096)), ParseError::InvalidDigit);
    assert_eq!(error_of(produce_table(b"a;\n", 4096)), ParseError::InvalidDigit);
    assert_eq!(error_of(produce_table(b"a;1;2\n", 4096)), ParseError::InvalidDigit);
    assert_eq!(error_of(produce_table(b"a;1\r\n", 4096)), ParseError::InvalidDigit);
    assert_eq!(error_of(produce_table(b"a;1\nb;2.\n", 4)), ParseError::InvalidDigit);
    assert_eq!(error_of(produce_table(b"a;12345678901234567890\n", 4096)), ParseError::OutOfRange);
}

#[test]
fn row_with_many_fraction_digits_is_recorded() {
    let t = produce_table(b"k;0.0000000001
k;1.00000000049
j;-2.5000000000000
", 4096).unwrap();
    assert_eq!(t.get(b"k"), Some(sample_of(&[0, UNIT])));
    assert_eq!(t.get(b"j"), Some(sample_of(&[-2_500_000_000])));
    assert_eq!(t.rows(), 3);
}

#[test]
fn the_first_rejected_row_gives_the_error() {
    assert_eq!(error_of(produce_table(b"a;1\nb\nc;x\n", 4096)), ParseError::MissingSeparator);
    assert_eq!(error_of(produce_table(b"a;1\nc;x\nb\n", 4096)), ParseError::InvalidDigit);
}

#[test]
fn record_row_records_or_rejects() {
    let mut t = Table::new();
    assert_eq!(record_row(&mut t, b"k;1.5"), Ok(()));
    assert_eq!(record_row(&mut t, b"k;2.5"), Ok(()));
    assert_eq!(record_row(&mut t, b"k2.5"), Err(ParseError::MissingSeparator));
    assert_eq!(record_row(&mut t, b"k;2,5"), Err(ParseError::InvalidDigit));
    assert_eq!(record_row(&mut t, b"j;-4"), Ok(()));
    assert_eq!(t.get(b"k"), Some(sample_of(&[1_500_000_000, 2_500_000_000])));
    assert_eq!(t.get(b"j"), Some(sample_of(&[-4 * UNIT])));
    assert_eq!(t.rows(), 3);
}

#[test]
fn counts_sum_up_to_the_number_of_rows() {
    let cities = ["Oslo", "Rome", "Lima", "Bern", "Kyiv", "Baku", "Doha"];
    for count in [0usize, 1, 2, 10, 999, 5000] {
        let mut data = Vec::new();
        for i in 0..count {
            let city = cities[(i * 7 + i / 3) % cities.len()];
            let tenths = (i as i64 * 37) % 1999 - 999;
            let sign = if tenths < 0 { "-" } else { "" };
            let line = format!("{};{}{}.{}\n", city, sign, tenths.abs() / 10, tenths.abs() % 10);
            data.extend_from_slice(line.as_bytes());
        }
        let t = produce_table(&data, 64).unwrap();
        let total: u64 = t.entries().iter().map(|e| e.1.count()).sum();
        assert_eq!(total, count as u64);
        assert_eq!(t.rows(), count as u64);
    }
}
