use global_align::needleman_wunsch::{backtrack_alignment, construct_matrix};

fn input_pair() -> (Vec<u8>, Vec<u8>) {
    (b"GATTACA".to_vec(), b"GCATGCU".to_vec())
}

#[test]
fn test_matrix() {
    let (seq1_chars, seq2_chars) = input_pair();
    let res = construct_matrix(&seq1_chars, &seq2_chars, 1, -1, -1);
    assert_eq!(res[res.len() - 1], vec![-7, -5, -3, -1, -1, -1, 0, 0]);
}

#[test]
fn test_backtrack() {
    let (seq1_chars, seq2_chars) = input_pair();
    let matrix = construct_matrix(&seq1_chars, &seq2_chars, 1, -1, -1);
    let res = backtrack_alignment(&matrix, &seq1_chars, &seq2_chars, -1);
    assert_eq!(
        res,
        (
            "G-ATTACA".to_string().into_bytes(),
            "| ||* |*".to_string().into_bytes(),
            "GCATG-CU".to_string().into_bytes()
        )
    );
}

#[test]
fn test_backtrack_seq2_empty() {
    let seq1_chars = "test".to_string().into_bytes();
    let seq2_chars = String::new().into_bytes();
    let matrix = construct_matrix(&seq1_chars, &seq2_chars, 1, -1, -1);
    let res = backtrack_alignment(&matrix, &seq1_chars, &seq2_chars, -1);
    assert_eq!(
        res,
        ("test".to_string().into_bytes(), "    ".to_string().into_bytes(), "----".to_string().into_bytes())
    );
}

#[test]
fn test_backtrack_seq1_empty() {
    let seq1_chars = String::new().into_bytes();
    let seq2_chars = "test".to_string().into_bytes();
    let matrix = construct_matrix(&seq1_chars, &seq2_chars, 1, -1, -1);
    let res = backtrack_alignment(&matrix, &seq1_chars, &seq2_chars, -1);
    assert_eq!(
        res,
        ("----".to_string().into_bytes(), "    ".to_string().into_bytes(), "test".to_string().into_bytes())
    );
}

#[test]
fn full_matrix_corner_score_of_example() {
    let (seq1, seq2) = input_pair();
    let matrix = construct_matrix(&seq1, &seq2, 1, -1, -1);
    assert_eq!(matrix[seq2.len()][seq1.len()], 0);
    assert_eq!(matrix[0], vec![0, -1, -2, -3, -4, -5, -6, -7]);
    let first_column: Vec<i32> = matrix.iter().map(|row| row[0]).collect();
    assert_eq!(first_column, vec![0, -1, -2, -3, -4, -5, -6, -7]);
}

#[test]
fn full_matrix_empty_seq2_score() {
    let matrix = construct_matrix(b"test", b"", 1, -1, -1);
    assert_eq!(matrix.len(), 1);
    assert_eq!(matrix[0][4], -4);
}

#[test]
fn full_matrix_both_empty() {
    let matrix = construct_matrix(b"", b"", 1, -1, -3);
    assert_eq!(matrix, vec![vec![0]]);
    assert_eq!(backtrack_alignment(&matrix, b"", b"", -3), (vec![], vec![], vec![]));
}

#[test]
fn full_matrix_mismatch_marker() {
    let matrix = construct_matrix(b"AC", b"AG", 1, -1, -3);
    assert_eq!(matrix[2][2], 0);
    let res = backtrack_alignment(&matrix, b"AC", b"AG", -3);
    assert_eq!(res, (b"AC".to_vec(), b"|*".to_vec(), b"AG".to_vec()));
}

fn column_scores(top: &[u8], bottom: &[u8], m: i32, x: i32, g: i32) -> i32 {
    top.iter()
        .zip(bottom.iter())
        .map(|(&a, &b)| if a == b'-' || b == b'-' { g } else if a == b { m } else { x })
        .sum()
}

fn without_gaps(s: &[u8]) -> Vec<u8> {
    s.iter().copied().filter(|&b| b != b'-').collect()
}

#[test]
fn backtrack_consistency_on_examples() {
    let cases: [(&[u8], &[u8], i32, i32, i32); 4] = [
        (b"GATTACA", b"GCATGCU", 1, -1, -1),
        (b"ACGTTGCA", b"ACTGA", 2, -1, -2),
        (b"CCCC", b"CGTCTC", 1, -1, -1),
        (b"A", b"TTTT", 1, -1, -3),
    ];
    for (s1, s2, m, x, g) in cases {
        let matrix = construct_matrix(s1, s2, m, x, g);
        let (top, diff, bottom) = backtrack_alignment(&matrix, s1, s2, g);
        assert_eq!(top.len(), diff.len());
        assert_eq!(bottom.len(), diff.len());
        assert_eq!(without_gaps(&top), s1.to_vec());
        assert_eq!(without_gaps(&bottom), s2.to_vec());
        assert_eq!(column_scores(&top, &bottom, m, x, g), matrix[s2.len()][s1.len()]);
    }
}
