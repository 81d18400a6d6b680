use std::error::Error;

use global_align::delta::construct_delta_matrices;
use global_align::needleman_wunsch::construct_matrix;

#[test]
fn test_delta_h_and_v_matrix_equal_to_s_matrix() -> Result<(), Box<dyn Error>> {
    let seq1_chars = b"GATTACA".to_vec();
    let seq2_chars = b"GCATGCU".to_vec();
    let match_score = 1;
    let mismatch_score = -1;
    let gap_score = -3;

    let (delta_h, delta_v) = construct_delta_matrices(&seq1_chars, &seq2_chars, match_score, mismatch_score, gap_score);
    let s_matrix = construct_matrix(&seq1_chars, &seq2_chars, match_score, mismatch_score, gap_score);

    let mut s_matrix_from_h: Vec<Vec<i32>> = vec![vec![0; seq1_chars.len() + 1]; seq2_chars.len() + 1];
    for (index, init_value) in (0..=seq2_chars.len()).enumerate() {
        s_matrix_from_h[index][0] = init_value as i32 * gap_score;
    }
    for row in 0..=seq2_chars.len() {
        for col in 1..=seq1_chars.len() {
            s_matrix_from_h[row][col] =
                s_matrix_from_h[row][col - 1] + delta_h[row][col].ok_or("Value should have been filled in")?;
        }
    }
    assert_eq!(s_matrix, s_matrix_from_h);

    let mut s_matrix_from_v: Vec<Vec<i32>> = vec![vec![0; seq1_chars.len() + 1]; seq2_chars.len() + 1];
    s_matrix_from_v[0] = (0..=seq1_chars.len()).map(|i| i as i32 * gap_score).collect();
    for row in 1..=seq2_chars.len() {
        for col in 0..=seq1_chars.len() {
            s_matrix_from_v[row][col] =
                s_matrix_from_v[row - 1][col] + delta_v[row][col].ok_or("Value should have been filled in")?;
        }
    }
    assert_eq!(s_matrix, s_matrix_from_v);
    Ok(())
}

#[test]
fn delta_matrices_borders() {
    let (delta_h, delta_v) = construct_delta_matrices(b"AC", b"A", 1, -1, -3);
    assert_eq!(delta_h, vec![vec![Some(-3), Some(-3), Some(-3)], vec![None, Some(4), Some(-3)]]);
    assert_eq!(delta_v, vec![vec![Some(-3), None, None], vec![Some(-3), Some(4), Some(4)]]);
}
