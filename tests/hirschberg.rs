use global_align::hirschberg::{hirschberg, nw_score};
use global_align::needleman_wunsch::construct_matrix;

#[test]
fn test_nw_score() {
    let seq1_chars = b"GATTACA".to_vec();
    let seq2_chars = b"GCATGCU".to_vec();
    let res = nw_score(&seq1_chars, &seq2_chars, 1, -1, -1, false);
    assert_eq!(res, vec![-7, -5, -3, -1, -2, -2, 0, 0]);
}

#[test]
fn test_nw_score_rev() {
    let seq1_chars = b"GATTACA".to_vec();
    let seq2_chars = b"GCATGCU".to_vec();
    let res = nw_score(&seq1_chars, &seq2_chars, 1, -1, -1, true);
    assert_eq!(res, vec![-7, -7, -5, -3, -3, -1, -1, 0]);
}

#[test]
fn hirschberg_example_triple() {
    let res = hirschberg(b"GATTACA", b"GCATGCU", 1, -1, -1).unwrap();
    assert_eq!(res, (b"G-ATTACA".to_vec(), b"| ||* |*".to_vec(), b"GCATG-CU".to_vec()));
}

#[test]
fn hirschberg_base_cases() {
    assert_eq!(hirschberg(b"", b"", 1, -1, -1).unwrap(), (vec![], vec![], vec![]));
    assert_eq!(
        hirschberg(b"test", b"", 1, -1, -1).unwrap(),
        (b"test".to_vec(), b"    ".to_vec(), b"----".to_vec())
    );
    assert_eq!(hirschberg(b"A", b"TA", 1, -1, -1).unwrap(), (b"-A".to_vec(), b" |".to_vec(), b"TA".to_vec()));
}

fn score_of(top: &[u8], bottom: &[u8], m: i32, x: i32, g: i32) -> i32 {
    top.iter()
        .zip(bottom.iter())
        .map(|(&a, &b)| if a == b'-' || b == b'-' { g } else if a == b { m } else { x })
        .sum()
}

#[test]
fn hirschberg_score_equals_full_matrix() {
    let cases: [(&[u8], &[u8], i32, i32, i32); 4] = [
        (b"GATTACA", b"GCATGCU", 1, -1, -1),
        (b"CCCC", b"CGTCTC", 1, -1, -1),
        (b"ACGTACGTTA", b"TTACG", 1, -1, -3),
        (b"TCCTG", b"TC", 1, -1, -2),
    ];
    for (s1, s2, m, x, g) in cases {
        let matrix = construct_matrix(s1, s2, m, x, g);
        let (top, diff, bottom) = hirschberg(s1, s2, m, x, g).unwrap();
        assert_eq!(top.len(), diff.len());
        assert_eq!(bottom.len(), diff.len());
        let t: Vec<u8> = top.iter().copied().filter(|&b| b != b'-').collect();
        let u: Vec<u8> = bottom.iter().copied().filter(|&b| b != b'-').collect();
        assert_eq!(t, s1.to_vec());
        assert_eq!(u, s2.to_vec());
        assert_eq!(score_of(&top, &bottom, m, x, g), matrix[s2.len()][s1.len()]);
    }
}

#[test]
fn hirschberg_may_pick_another_optimal_triple() {
    // equally optimal, but not the triple that full-matrix traceback picks
    let res = hirschberg(b"CCCC", b"CGTCTC", 1, -1, -1).unwrap();
    assert_eq!(res, (b"C--CCC".to_vec(), b"|  |*|".to_vec(), b"CGTCTC".to_vec()));
}
