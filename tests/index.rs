use nailpolish::call::selected_groups;
use nailpolish::duplicates::{get_duplicates, parse_offset, IndexError, RecordIdentifier};
use std::collections::BTreeMap;

const HEADER: &str = "read\tbarcode\tlength\tquality\tumi\tposition\n";

fn table(rows: &[(&str, &str, &str)]) -> String {
    let mut text = String::from(HEADER);
    for (i, (bc, umi, pos)) in rows.iter().enumerate() {
        text.push_str(&format!("r{}\t{}\t100\t30\t{}\t{}\n", i, bc, umi, pos));
    }
    text
}

fn id(bc: &str, umi: &str) -> RecordIdentifier {
    RecordIdentifier { bc: bc.to_string(), umi: umi.to_string() }
}

#[test]
fn two_keys_scenario() {
    let text = table(&[("AAAA", "CCCC", "10"), ("AAAA", "CCCC", "210"), ("GGGG", "TTTT", "500")]);
    let (map, stats) = get_duplicates(text.as_bytes()).ok().unwrap();
    assert_eq!(map.len(), 2);
    assert_eq!(map.key(0), &id("AAAA", "CCCC"));
    assert_eq!(map.offsets(0), &vec![10, 210]);
    assert_eq!(map.key(1), &id("GGGG", "TTTT"));
    assert_eq!(map.offsets(1), &vec![500]);
    assert_eq!(stats.total_reads, 3);
    assert_eq!(stats.duplicate_reads, 2);
    assert_eq!(stats.duplicate_ids, 1);
    let expected: BTreeMap<usize, usize> = [(1, 1), (2, 1)].into_iter().collect();
    assert_eq!(stats.distribution, expected);
    assert_eq!(stats.duplicate_reads as f64 / stats.total_reads as f64, 2.0 / 3.0);
}

#[test]
fn distinct_keys_have_no_duplicates() {
    let text = table(&[("A", "C", "0"), ("A", "G", "50"), ("T", "C", "99"), ("G", "G", "7")]);
    let (map, stats) = get_duplicates(text.as_bytes()).ok().unwrap();
    assert_eq!(map.len(), 4);
    assert_eq!(stats.duplicate_reads, 0);
    assert_eq!(stats.duplicate_ids, 0);
    let expected: BTreeMap<usize, usize> = [(1, 4)].into_iter().collect();
    assert_eq!(stats.distribution, expected);
}

#[test]
fn distribution_sums_to_reads() {
    let text = table(&[
        ("A", "A", "1"),
        ("B", "B", "2"),
        ("A", "A", "3"),
        ("C", "C", "4"),
        ("A", "A", "5"),
        ("B", "B", "6"),
        ("D", "D", "7"),
    ]);
    let (map, stats) = get_duplicates(text.as_bytes()).ok().unwrap();
    assert_eq!(map.len(), 4);
    assert_eq!(map.offsets(0), &vec![1, 3, 5]);
    assert_eq!(map.offsets(1), &vec![2, 6]);
    let weighted: usize = stats.distribution.iter().map(|(k, v)| k * v).sum();
    assert_eq!(weighted, stats.total_reads);
    let ids: usize = stats.distribution.iter().filter(|(k, _)| **k != 1).map(|(_, v)| v).sum();
    assert_eq!(ids, stats.duplicate_ids);
    assert_eq!(stats.duplicate_ids, 2);
    assert_eq!(stats.duplicate_reads, 5);
    let expected: BTreeMap<usize, usize> = [(1, 2), (2, 1), (3, 1)].into_iter().collect();
    assert_eq!(stats.distribution, expected);
}

#[test]
fn empty_table() {
    let (map, stats) = get_duplicates(HEADER.as_bytes()).ok().unwrap();
    assert_eq!(map.len(), 0);
    assert_eq!(stats.total_reads, 0);
    assert_eq!(stats.duplicate_reads, 0);
    let expected: BTreeMap<usize, usize> = [(1, 0)].into_iter().collect();
    assert_eq!(stats.distribution, expected);
}

#[test]
fn same_barcode_other_umi_is_another_group() {
    let text = table(&[("AAAA", "CCCC", "10"), ("AAAA", "CCCG", "20")]);
    let (map, stats) = get_duplicates(text.as_bytes()).ok().unwrap();
    assert_eq!(map.len(), 2);
    assert_eq!(stats.duplicate_ids, 0);
}

#[test]
fn missing_columns_are_reported() {
    let text = "a\tb\tc\nx\ty\tz\n";
    match get_duplicates(text.as_bytes()) {
        Err(IndexError::MissingColumns { row }) => assert_eq!(row, 0),
        _ => panic!("expected a missing-column error"),
    }
}

#[test]
fn bad_offset_is_reported() {
    let text = table(&[("A", "C", "10"), ("A", "C", "ten")]);
    match get_duplicates(text.as_bytes()) {
        Err(IndexError::BadOffset { row }) => assert_eq!(row, 1),
        _ => panic!("expected a bad-offset error"),
    }
}

#[test]
fn unequal_rows_are_a_table_error() {
    let text = format!("{}r0\tA\t1\n", HEADER);
    assert!(matches!(get_duplicates(text.as_bytes()), Err(IndexError::Table(_))));
}

#[test]
fn offsets_parse_in_decimal() {
    assert_eq!(parse_offset("0"), Some(0));
    assert_eq!(parse_offset("4096"), Some(4096));
    assert_eq!(parse_offset(""), None);
    assert_eq!(parse_offset("12a"), None);
    assert_eq!(parse_offset("-1"), None);
    assert_eq!(parse_offset(&usize::MAX.to_string()), Some(usize::MAX));
    assert_eq!(parse_offset("99999999999999999999999"), None);
}

#[test]
fn duplicates_only_skips_singletons() {
    let text = table(&[("A", "C", "1"), ("G", "T", "2"), ("A", "C", "3"), ("T", "T", "4")]);
    let (map, _) = get_duplicates(text.as_bytes()).ok().unwrap();
    assert_eq!(selected_groups(&map, false), vec![0, 1, 2]);
    assert_eq!(selected_groups(&map, true), vec![0]);
}
