use global_align::fasta::{parse_fasta, ParseFailure};

fn lines(text: &str) -> Vec<Vec<u8>> {
    text.lines().map(|l| l.as_bytes().to_vec()).collect()
}

#[test]
fn read_fasta_test() {
    let (seq1, seq2) = parse_fasta(&lines(">seq1\nGATTACA\n>seq2\nGCATGCU\n")).unwrap();
    assert_eq!(seq1, b"GATTACA".to_vec());
    assert_eq!(seq2, b"GCATGCU".to_vec());
}

#[test]
fn read_multiline_fasta_test() {
    let (seq1, seq2) = parse_fasta(&lines(">seq1\nGAT\nTA\nCA\n>seq2\nGCAT\nGCU\n")).unwrap();
    assert_eq!(seq1, b"GATTACA".to_vec());
    assert_eq!(seq2, b"GCATGCU".to_vec());
}

#[test]
fn fasta_with_one_record_fails() {
    assert_eq!(parse_fasta(&lines(">only\nACGT\n")), Err(ParseFailure));
    assert_eq!(parse_fasta(&lines("")), Err(ParseFailure));
}

#[test]
fn fasta_with_three_records_fails() {
    assert_eq!(parse_fasta(&lines(">a\nA\n>b\nC\n>c\nG\n")), Err(ParseFailure));
}

#[test]
fn fasta_empty_last_record() {
    assert_eq!(parse_fasta(&lines(">a\nAC\n>b\n")), Ok((b"AC".to_vec(), vec![])));
}
