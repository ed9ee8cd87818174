use rowstats::format::{format_summary, write_i16_as_float};
use rowstats::parser::parse_i16;
use rowstats::partition::{aggregate, next_record_start, partition};
use rowstats::scanner::process_chunk;
use rowstats::table::{StatsTable, insert_reading, merge_checked, merge_results};

#[test]
fn test_write_i16_as_float() {
    let mut buf = Vec::new();
    write_i16_as_float(&mut buf, 123);
    assert_eq!(buf, b"12.3");
}

#[test]
fn test_write_negative_i16_as_float() {
    let mut buf = Vec::new();
    write_i16_as_float(&mut buf, -123);
    assert_eq!(buf, b"-12.3");
}

#[test]
fn test_write_small_negative_i16_as_float() {
    let mut buf = Vec::new();
    write_i16_as_float(&mut buf, -1);
    assert_eq!(buf, b"-0.1");
}

#[test]
fn test_process_chunk_one_line() {
    let input = b"City;-12.3\n";
    let cities = process_chunk(input, 0, input.len()).unwrap();
    assert_eq!(cities.len(), 1);
    let entry = cities.get(&input[0..4]).unwrap();
    assert_eq!(entry.min, -123);
    assert_eq!(entry.max, -123);
    assert_eq!(entry.sum, -123);
    assert_eq!(entry.count, 1);
}

#[test]
fn test_process_chunk_two_lines() {
    let input = b"City1;-12.3\nCity2;12.3\n";
    let cities = process_chunk(input, 0, input.len()).unwrap();
    assert_eq!(cities.len(), 2);
    let entry = cities.get(&input[0..5]).unwrap();
    assert_eq!(entry.min, -123);
    assert_eq!(entry.max, -123);
    assert_eq!(entry.sum, -123);
    assert_eq!(entry.count, 1);
    let entry = cities.get(&input[12..17]).unwrap();
    assert_eq!(entry.min, 123);
    assert_eq!(entry.max, 123);
    assert_eq!(entry.sum, 123);
    assert_eq!(entry.count, 1);
}

#[test]
fn test_process_chunk_two_lines_same_city() {
    let input = b"City;-1.2\nCity;0.0\n";
    let cities = process_chunk(input, 0, input.len()).unwrap();
    assert_eq!(cities.len(), 1);
    let entry = cities.get(&input[0..4]).unwrap();
    assert_eq!(entry.min, -12);
    assert_eq!(entry.max, 0);
    assert_eq!(entry.sum, -12);
    assert_eq!(entry.count, 2);
}

#[test]
fn test_parse_i16() {
    assert_eq!(123, parse_i16(b"12.3", &mut 0).unwrap());
    assert_eq!(-123, parse_i16(b"-12.3", &mut 0).unwrap());
}

#[test]
fn test_parse_i16_updates_ptr() {
    let mut ptr: usize = 0;
    let _ = parse_i16(b"1.1\nfoo", &mut ptr);
    assert_eq!(3, ptr);
}

fn summary(input: &[u8], workers: usize) -> Vec<u8> {
    let table = aggregate(input, workers).expect("well-formed input");
    format_summary(&table)
}

#[test]
fn example_three_records_any_partitioning() {
    let input = b"Hamburg;12.0\nBerlin;-3.2\nHamburg;14.0\n";
    let expected: &[u8] = b"{Berlin=-3.2/-3.2/-3.2,Hamburg=12.0/13.0/14.0}";
    assert_eq!(summary(input, 1), expected);
    assert_eq!(summary(input, 2), expected);
    assert_eq!(summary(input, 7), expected);
    // one window per record and more: far more windows than records
    assert_eq!(summary(input, input.len()), expected);
}

#[test]
fn example_single_record() {
    assert_eq!(summary(b"X;0.0\n", 1), b"{X=0.0/0.0/0.0}");
    assert_eq!(summary(b"X;0.0\n", 3), b"{X=0.0/0.0/0.0}");
}

#[test]
fn example_half_mean_rounds_away_from_zero() {
    // two readings, same key: sum -0.1, mean -0.05 rounds to -0.1
    let input = b"Y;-0.1\nY;0.0\n";
    assert_eq!(summary(input, 1), b"{Y=-0.1/-0.1/0.0}");
    assert_eq!(summary(input, 2), b"{Y=-0.1/-0.1/0.0}");
}

#[test]
fn two_fractional_digits_are_malformed() {
    assert!(aggregate(b"Y;-1.05\n", 1).is_err());
}

#[test]
fn positive_half_mean_rounds_up() {
    let input = b"P;0.0\nP;0.1\n";
    assert_eq!(summary(input, 1), b"{P=0.0/0.1/0.1}");
}

#[test]
fn negative_mean_that_rounds_to_zero_prints_unsigned() {
    // sum -0.1 over three readings: mean -0.033 rounds to zero, printed 0.0
    let input = b"K;-0.1\nK;0.0\nK;0.0\n";
    assert_eq!(summary(input, 1), b"{K=-0.1/0.0/0.0}");
}

#[test]
fn empty_input_renders_empty_braces() {
    assert_eq!(summary(b"", 1), b"{}");
    assert_eq!(summary(b"", 4), b"{}");
}

#[test]
fn record_straddling_a_split_point_is_counted_once() {
    // length 14, two workers: the proposed boundary at 7 is exactly the
    // start of the second record
    let input = b"ab;1.0\ncd;2.0\n";
    assert_eq!(input.len(), 14);
    let expected: &[u8] = b"{ab=1.0/1.0/1.0,cd=2.0/2.0/2.0}";
    for workers in 1..=input.len() {
        assert_eq!(summary(input, workers), expected);
    }
    // boundaries landing inside the first record
    let input2 = b"abcdefgh;-9.9\nz;0.1\n";
    let expected2: &[u8] = b"{abcdefgh=-9.9/-9.9/-9.9,z=0.1/0.1/0.1}";
    for workers in 1..=input2.len() {
        assert_eq!(summary(input2, workers), expected2);
    }
}

#[test]
fn merging_with_empty_table_changes_nothing() {
    let input = b"City;-1.2\nCity;0.0\nTown;3.4\n";
    let t = process_chunk(input, 0, input.len()).unwrap();
    let merged = merge_results(t, StatsTable::new());
    assert_eq!(merged.len(), 2);
    let entry = merged.get(b"City").unwrap();
    assert_eq!(entry.min, -12);
    assert_eq!(entry.max, 0);
    assert_eq!(entry.sum, -12);
    assert_eq!(entry.count, 2);
    let other = StatsTable::new();
    let t2 = process_chunk(input, 0, input.len()).unwrap();
    let merged2 = merge_results(other, t2);
    assert_eq!(merged2.len(), 2);
    assert_eq!(merged2.get(b"Town").unwrap().max, 34);
}

#[test]
fn merge_is_order_independent() {
    let a1 = process_chunk(b"k;1.0\nm;2.0\n", 0, 12).unwrap();
    let b1 = process_chunk(b"k;-3.0\nn;4.0\n", 0, 13).unwrap();
    let a2 = process_chunk(b"k;1.0\nm;2.0\n", 0, 12).unwrap();
    let b2 = process_chunk(b"k;-3.0\nn;4.0\n", 0, 13).unwrap();
    let left = merge_results(a1, b1);
    let right = merge_results(b2, a2);
    assert_eq!(format_summary(&left), format_summary(&right));
    let k = left.get(b"k").unwrap();
    assert_eq!(k.min, -30);
    assert_eq!(k.max, 10);
    assert_eq!(k.sum, -20);
    assert_eq!(k.count, 2);
}

#[test]
fn merge_checked_accepts_ordinary_tables() {
    let a = process_chunk(b"k;1.0\n", 0, 6).unwrap();
    let b = process_chunk(b"k;2.0\n", 0, 6).unwrap();
    let merged = merge_checked(a, b).unwrap();
    let k = merged.get(b"k").unwrap();
    assert_eq!(k.sum, 30);
    assert_eq!(k.count, 2);
}

#[test]
fn malformed_records_are_fatal() {
    // missing delimiter
    assert!(aggregate(b"City\n", 1).is_err());
    // empty key
    assert!(aggregate(b";1.0\n", 1).is_err());
    // missing terminator on the final record
    assert!(aggregate(b"X;1.0", 1).is_err());
    // no fractional digit
    assert!(aggregate(b"X;1\n", 1).is_err());
    // no integer digit before the point
    assert!(aggregate(b"X;.5\n", 1).is_err());
    // non-digit in the numeric field
    assert!(aggregate(b"X;1a.0\n", 1).is_err());
    // reading outside the fixed-point range
    assert!(aggregate(b"X;99999.9\n", 1).is_err());
    // a bad record anywhere poisons the whole run
    assert!(aggregate(b"A;1.0\nB;bad\nC;2.0\n", 3).is_err());
}

#[test]
fn largest_in_range_reading_is_accepted() {
    assert_eq!(summary(b"M;3276.7\nM;-3276.7\n", 1), b"{M=-3276.7/0.0/3276.7}");
}

#[test]
fn parse_rejects_bare_minus_and_empty() {
    assert!(parse_i16(b"-", &mut 0).is_err());
    assert!(parse_i16(b"", &mut 0).is_err());
    assert!(parse_i16(b"-.5", &mut 0).is_err());
}

#[test]
fn next_record_start_steps_past_newline() {
    assert_eq!(next_record_start(b"ab\ncd", 0), 3);
    assert_eq!(next_record_start(b"ab\ncd", 3), 5);
    assert_eq!(next_record_start(b"abc", 1), 3);
}

#[test]
fn partition_covers_buffer_without_gaps() {
    let input = b"aa;1.0\nbb;2.0\ncc;3.0\n";
    for workers in 1..=8 {
        let windows = partition(input, workers);
        assert_eq!(windows.len(), workers);
        assert_eq!(windows[0].0, 0);
        assert_eq!(windows[workers - 1].1, input.len());
        for i in 0..workers - 1 {
            assert_eq!(windows[i].1, windows[i + 1].0);
            assert!(windows[i].0 <= windows[i].1);
        }
    }
}

#[test]
fn insert_reading_folds_min_max_sum_count() {
    let mut t = StatsTable::new();
    insert_reading(&mut t, b"q", 5);
    insert_reading(&mut t, b"q", -7);
    insert_reading(&mut t, b"q", 6);
    let e = t.get(b"q").unwrap();
    assert_eq!(e.min, -7);
    assert_eq!(e.max, 6);
    assert_eq!(e.sum, 4);
    assert_eq!(e.count, 3);
    assert!(t.get(b"r").is_none());
}

#[test]
fn keys_sort_by_byte_value() {
    let input = b"b;1.0\nB;2.0\naa;3.0\na;4.0\n";
    assert_eq!(
        summary(input, 1),
        b"{B=2.0/2.0/2.0,a=4.0/4.0/4.0,aa=3.0/3.0/3.0,b=1.0/1.0/1.0}"
    );
}
