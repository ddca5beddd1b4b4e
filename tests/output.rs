use nailpolish::call::{consensus_block, singleton_block, GroupBundle, SequenceRecord};
use nailpolish::duplicates::RecordIdentifier;

fn id(bc: &str, umi: &str) -> RecordIdentifier {
    RecordIdentifier { bc: bc.to_string(), umi: umi.to_string() }
}

fn read(seq: &str) -> SequenceRecord {
    SequenceRecord { id: String::from("read"), seq: seq.to_string(), qual: vec![b'I'; seq.len()] }
}

#[test]
fn singleton_is_verbatim() {
    let b = GroupBundle { id: id("GGGG", "TTTT"), records: vec![read("ACGTAC")] };
    assert!(!b.needs_consensus());
    assert_eq!(b.render("", true), ">GGGG_TTTT_SIN\nACGTAC\n");
    assert_eq!(b.render("IGNORED", false), ">GGGG_TTTT_SIN\nACGTAC\n");
    assert_eq!(singleton_block(&id("A", "B"), "TT"), ">A_B_SIN\nTT\n");
}

#[test]
fn consensus_record_of_pair() {
    let b = GroupBundle { id: id("AAAA", "CCCC"), records: vec![read("ACGT"), read("ACGA")] };
    assert!(b.needs_consensus());
    assert_eq!(b.render("ACGT", false), ">AAAA_CCCC_CON_2\nACGT\n");
}

#[test]
fn originals_precede_consensus() {
    let b = GroupBundle { id: id("AAAA", "CCCC"), records: vec![read("ACGT"), read("ACGA")] };
    assert_eq!(
        b.render("ACGT", true),
        ">AAAA_CCCC_DUP_1_of_2\nACGT\n>AAAA_CCCC_DUP_2_of_2\nACGA\n>AAAA_CCCC_CON_2\nACGT\n"
    );
}

#[test]
fn group_sizes_print_in_decimal() {
    let records: Vec<SequenceRecord> = (0..12).map(|_| read("A")).collect();
    let text = consensus_block(&id("B", "U"), &records, "A", false);
    assert_eq!(text, ">B_U_CON_12\nA\n");
    let text = consensus_block(&id("B", "U"), &records, "A", true);
    assert_eq!(text.matches("_DUP_").count(), 12);
    assert!(text.starts_with(">B_U_DUP_1_of_12\nA\n"));
    assert!(text.contains(">B_U_DUP_10_of_12\nA\n"));
    assert!(text.ends_with(">B_U_DUP_12_of_12\nA\n>B_U_CON_12\nA\n"));
    let records: Vec<SequenceRecord> = (0..100).map(|_| read("C")).collect();
    assert_eq!(consensus_block(&id("x", "y"), &records, "C", false), ">x_y_CON_100\nC\n");
}
