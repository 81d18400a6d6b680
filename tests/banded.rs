use global_align::banded::{banded_alignment, banded_backtrack, banded_score, construct_banded_matrix, CornerNotComputed};
use global_align::needleman_wunsch::construct_matrix;

#[test]
fn banded_wide_band_equals_full_matrix() {
    let (s1, s2) = (b"GATTACA", b"GCATGCU");
    let full = construct_matrix(s1, s2, 1, -1, -1)[7][7];
    assert_eq!(banded_score(s1, s2, 7, 1, -1, -1), Ok(full));
    assert_eq!(banded_score(s1, s2, 100, 1, -1, -1), Ok(0));
}

#[test]
fn banded_narrow_band_is_at_most_full() {
    let (s1, s2) = (b"AAAAT", b"TAAAA");
    let full = construct_matrix(s1, s2, 1, -1, -1)[5][5];
    assert_eq!(full, 2);
    assert_eq!(banded_score(s1, s2, 0, 1, -1, -1), Ok(1));
    assert_eq!(banded_score(s1, s2, 1, 1, -1, -1), Ok(2));
}

#[test]
fn banded_corner_out_of_band_fails() {
    assert_eq!(banded_score(b"ACGTACGT", b"ACG", 4, 1, -1, -3), Err(CornerNotComputed));
    assert_eq!(banded_score(b"ACGTACGT", b"ACG", 5, 1, -1, -3), Ok(-12));
    assert_eq!(banded_score(b"", b"AC", 1, 1, -1, -3), Err(CornerNotComputed));
    assert_eq!(banded_score(b"", b"", 0, 1, -1, -3), Ok(0));
}

#[test]
fn banded_matrix_cells_outside_band_are_undefined() {
    let matrix = construct_banded_matrix(b"ACG", b"ACG", 1, 1, -1, -3);
    assert_eq!(matrix[0], vec![Some(0), Some(-3), None, None]);
    assert_eq!(matrix[1], vec![Some(-3), Some(1), Some(-2), None]);
    assert_eq!(matrix[3][0], None);
    assert_eq!(matrix[3][3], Some(3));
}

#[test]
fn banded_alignment_wide_band_matches_full_traceback() {
    let res = banded_alignment(b"GATTACA", b"GCATGCU", 7, 1, -1, -1).unwrap();
    assert_eq!(res, (0, (b"G-ATTACA".to_vec(), b"| ||* |*".to_vec(), b"GCATG-CU".to_vec())));
}

#[test]
fn banded_alignment_narrow_band() {
    let res = banded_alignment(b"AAAAT", b"TAAAA", 0, 1, -1, -1).unwrap();
    assert_eq!(res, (1, (b"AAAAT".to_vec(), b"*|||*".to_vec(), b"TAAAA".to_vec())));
    assert_eq!(banded_alignment(b"AAAAT", b"TA", 1, 1, -1, -1), Err(CornerNotComputed));
}

#[test]
fn banded_backtrack_of_matrix() {
    let matrix = construct_banded_matrix(b"ACG", b"AG", 1, 1, -1, -3);
    let res = banded_backtrack(&matrix, b"ACG", b"AG", -3);
    assert_eq!(res, (b"ACG".to_vec(), b"| |".to_vec(), b"A-G".to_vec()));
}
