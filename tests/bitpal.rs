use std::collections::{HashMap, HashSet};
use std::error::Error;
use std::ops::Range;

use rand::rngs::ThreadRng;
use rand::Rng;

use global_align::bitpal::{advance_planes, bitpal, calculate_match_vectors, gather_score, DeltaPlanes, InputTooLongError};
use global_align::needleman_wunsch::construct_matrix;

#[test]
fn lib_test_match_vector() {
    let seq = "ACACGTA".to_string();
    let alphabet = HashSet::from([b'A', b'C', b'G', b'T']);
    let res = calculate_match_vectors(&seq.into_bytes(), &alphabet);
    let expected = HashMap::from([(b'A', 69), (b'C', 10), (b'G', 16), (b'T', 32)]);
    assert_eq!(res, expected);
}

#[test]
fn main_test_match_vector() {
    let seq = "ACACGTA".to_string();
    let alphabet = HashSet::from([b'A', b'C', b'G', b'T']);
    let res = calculate_match_vectors(&seq.into_bytes(), &alphabet);
    let expected = HashMap::from([(b'A', 69), (b'C', 10), (b'G', 16), (b'T', 32)]);
    assert_eq!(res, expected);
}

#[test]
fn lib_test_gather_score() {
    let last_row_res = HashMap::from([(-3, 4), (-2, 6), (-1, 0), (1, 0), (2, 10), (3, 69), (4, 3)]);
    let res = gather_score(last_row_res, 5, -3);
    let expected = 5 * -3 + (1 * -3 + 2 * -2 + 2 * 2 + 3 * 3 + 2 * 4);
    assert_eq!(res, expected);
}

#[test]
fn main_test_gather_score() {
    let last_row_res = HashMap::from([(-3, 4), (-2, 6), (-1, 0), (1, 0), (2, 10), (3, 69), (4, 3)]);
    let res = gather_score(last_row_res, 5, -3);
    let expected = 5 * -3 + (1 * -3 + 2 * -2 + 2 * 2 + 3 * 3 + 2 * 4);
    assert_eq!(res, expected);
}

fn dna_pair() -> (Vec<u8>, Vec<u8>) {
    (
        b"ACGTTGCATGCATGCCGTAGCTAGCTAGGCTAGCTAGCATCGATCGATGCTAGC".to_vec(),
        b"ACGTTGCTTGCATGCGTAGCTAGCTTAGGCTAGCAGCATCGTCGATGCTAGCAGGCTAGCTAGCTTTACGATCGA".to_vec(),
    )
}

#[test]
fn lib_test_bitpal() -> Result<(), Box<dyn Error>> {
    let (seq1_chars, seq2_chars) = dna_pair();
    let matrix = construct_matrix(&seq1_chars, &seq2_chars, 1, -1, -3);
    let nw_score = matrix[seq2_chars.len()][seq1_chars.len()];
    let bitpal = bitpal(&seq1_chars, &seq2_chars).map_err(|e| format!("{:?}", e))?;
    assert_eq!(bitpal, nw_score);
    Ok(())
}

#[test]
fn main_test_bitpal() -> Result<(), Box<dyn Error>> {
    let (seq1_chars, seq2_chars) = dna_pair();
    let matrix = construct_matrix(&seq1_chars, &seq2_chars, 1, -1, -3);
    let nw_score = matrix[seq2_chars.len()][seq1_chars.len()];
    let bitpal = bitpal(&seq1_chars, &seq2_chars).map_err(|e| format!("{:?}", e))?;
    assert_eq!(bitpal, nw_score);
    Ok(())
}

#[test]
fn lib_test_bitpal_minimal() -> Result<(), Box<dyn Error>> {
    let seq1 = "A".to_string().into_bytes();
    let seq2 = "TG".to_string().into_bytes();
    let matrix = construct_matrix(&seq1, &seq2, 1, -1, -3);
    let nw_score = matrix[seq2.len()][seq1.len()];
    let bitpal = bitpal(&seq1, &seq2).map_err(|e| format!("{:?}", e))?;
    assert_eq!(bitpal, nw_score);
    Ok(())
}

#[test]
fn main_test_bitpal_minimal() {
    let seq1 = "A".to_string().into_bytes();
    let seq2 = "TG".to_string().into_bytes();
    let matrix = construct_matrix(&seq1, &seq2, 1, -1, -3);
    let nw_score = matrix[seq2.len()][seq1.len()];
    let bitpal = bitpal(&seq1, &seq2).unwrap();
    assert_eq!(bitpal, nw_score);
}

fn generate_sequence_with_alphabet(alphabet: &Vec<u8>, rng: &mut ThreadRng, size_range: Range<usize>) -> Vec<u8> {
    let seq_len = rng.gen_range(size_range);
    let mut seq = vec![];
    for _ in 0..seq_len {
        seq.push(alphabet[rng.gen_range(0..alphabet.len())]);
    }
    seq
}

#[test]
fn lib_test_bitpal_fuzzing() -> Result<(), Box<dyn Error>> {
    let mut rng = rand::thread_rng();
    let valid_letters = vec![b'A', b'C', b'G', b'T'];
    for _ in 0..5000 {
        let seq1 = generate_sequence_with_alphabet(&valid_letters, &mut rng, 1..65);
        let seq2 = generate_sequence_with_alphabet(&valid_letters, &mut rng, 1..513);
        let matrix = construct_matrix(&seq1, &seq2, 1, -1, -3);
        let nw_score = matrix[seq2.len()][seq1.len()];
        let bitpal = bitpal(&seq1, &seq2).map_err(|e| format!("{:?}", e))?;
        assert_eq!(bitpal, nw_score);
    }
    Ok(())
}

#[test]
fn main_test_bitpal_fuzzing() {
    let mut rng = rand::thread_rng();
    let valid_letters = vec![b'A', b'C', b'G', b'T'];
    for _ in 0..1000 {
        let seq1 = generate_sequence_with_alphabet(&valid_letters, &mut rng, 1..64);
        let seq2 = generate_sequence_with_alphabet(&valid_letters, &mut rng, 1..64);
        let matrix = construct_matrix(&seq1, &seq2, 1, -1, -3);
        let nw_score = matrix[seq2.len()][seq1.len()];
        let bitpal = bitpal(&seq1, &seq2).unwrap();
        assert_eq!(bitpal, nw_score);
    }
}

#[test]
fn test_bitpal_size_check() -> Result<(), Box<dyn Error>> {
    let mut rng = rand::thread_rng();
    let valid_letters = vec![b'A', b'C', b'G', b'T'];
    let seq1 = generate_sequence_with_alphabet(&valid_letters, &mut rng, 65..66);
    let seq2 = generate_sequence_with_alphabet(&valid_letters, &mut rng, 65..66);
    assert!(bitpal(&seq1, &seq2).is_err_and(|e| e == InputTooLongError));
    Ok(())
}

#[test]
fn test_bitpal_seq2_short() -> Result<(), Box<dyn Error>> {
    let mut rng = rand::thread_rng();
    let valid_letters = vec![b'A', b'C', b'G', b'T'];
    let seq1 = generate_sequence_with_alphabet(&valid_letters, &mut rng, 65..66);
    let seq2 = generate_sequence_with_alphabet(&valid_letters, &mut rng, 1..65);
    let matrix = construct_matrix(&seq1, &seq2, 1, -1, -3);
    let nw_score = matrix[seq2.len()][seq1.len()];
    let bitpal = bitpal(&seq1, &seq2).map_err(|e| format!("{:?}", e))?;
    assert_eq!(bitpal, nw_score);
    Ok(())
}

#[test]
fn test_bitpal_seq1_empty() -> Result<(), Box<dyn Error>> {
    let mut rng = rand::thread_rng();
    let valid_letters = vec![b'A', b'C', b'G', b'T'];
    let seq1 = vec![];
    let seq2 = generate_sequence_with_alphabet(&valid_letters, &mut rng, 1..65);
    let bitpal = bitpal(&seq1, &seq2).map_err(|e| format!("{:?}", e))?;
    assert_eq!(bitpal, -3 * seq2.len() as i32);
    Ok(())
}

#[test]
fn test_bitpal_seq2_empty() -> Result<(), Box<dyn Error>> {
    let mut rng = rand::thread_rng();
    let valid_letters = vec![b'A', b'C', b'G', b'T'];
    let seq1 = generate_sequence_with_alphabet(&valid_letters, &mut rng, 1..65);
    let seq2 = vec![];
    let bitpal = bitpal(&seq1, &seq2).map_err(|e| format!("{:?}", e))?;
    assert_eq!(bitpal, -3 * seq1.len() as i32);
    Ok(())
}

#[test]
fn test_bitpal_seq1_empty_seq2_empty() -> Result<(), Box<dyn Error>> {
    let seq1 = vec![];
    let seq2 = vec![];
    let bitpal = bitpal(&seq1, &seq2).map_err(|e| format!("{:?}", e))?;
    assert_eq!(bitpal, 0);
    Ok(())
}

#[test]
fn test_bitpal_seq_len64() -> Result<(), Box<dyn Error>> {
    let mut rng = rand::thread_rng();
    let valid_letters = vec![b'A', b'C', b'G', b'T'];
    let seq1 = generate_sequence_with_alphabet(&valid_letters, &mut rng, 64..65);
    let seq2 = generate_sequence_with_alphabet(&valid_letters, &mut rng, 64..65);
    let matrix = construct_matrix(&seq1, &seq2, 1, -1, -3);
    let nw_score = matrix[seq2.len()][seq1.len()];
    let bitpal = bitpal(&seq1, &seq2).map_err(|e| format!("{:?}", e))?;
    assert_eq!(bitpal, nw_score);
    Ok(())
}

#[test]
fn bitpal_long_empty_horizontal_side() {
    // seq1 does not fit a word, so the empty seq2 is laid horizontally
    let seq1 = vec![b'A'; 100];
    assert_eq!(bitpal(&seq1, &vec![]), Ok(-300));
}

#[test]
fn bitpal_fixed_example_score() {
    assert_eq!(bitpal(&b"GATTACA".to_vec(), &b"GCATGCU".to_vec()), Ok(-1));
    assert_eq!(bitpal(&b"ACGT".to_vec(), &b"ACGT".to_vec()), Ok(4));
}

#[test]
fn gather_score_counts_only_given_keys() {
    let res = gather_score(HashMap::from([(4, 0b1011u64)]), 2, -3);
    assert_eq!(res, -6 + 4 * 3);
    assert_eq!(gather_score(HashMap::new(), 7, -1), -7);
}

#[test]
fn match_vectors_of_symbol_outside_sequence_are_empty() {
    let alphabet = HashSet::from([b'A', b'Z']);
    let res = calculate_match_vectors(&b"ABA".to_vec(), &alphabet);
    assert_eq!(res, HashMap::from([(b'A', 0b101), (b'Z', 0)]));
}

fn partitions_columns(p: &DeltaPlanes, all: u64) -> bool {
    let planes = [p.neg3, p.neg2, p.neg1, p.zero, p.pos1, p.pos2, p.pos3, p.pos4];
    let mut union = 0u64;
    for (i, a) in planes.iter().enumerate() {
        for b in planes.iter().skip(i + 1) {
            if a & b != 0 {
                return false;
            }
        }
        union |= a;
    }
    union == all
}

#[test]
fn row_updates_keep_planes_partitioned() {
    // horizontal "ACGTTA" (6 columns), vertical "GATTC"
    let all = (1u64 << 6) - 1;
    let alphabet = HashSet::from([b'A', b'C', b'G', b'T']);
    let vectors = calculate_match_vectors(&b"ACGTTA".to_vec(), &alphabet);
    let mut planes = DeltaPlanes { neg3: all, neg2: 0, neg1: 0, zero: 0, pos1: 0, pos2: 0, pos3: 0, pos4: 0 };
    for c in b"GATTC" {
        planes = advance_planes(planes, vectors[c], all);
        assert!(partitions_columns(&planes, all));
    }
}

#[test]
fn row_update_against_a_match() {
    // horizontal "A" against vertical "A": the one delta becomes +1
    let planes = DeltaPlanes { neg3: 1, neg2: 0, neg1: 0, zero: 0, pos1: 0, pos2: 0, pos3: 0, pos4: 0 };
    let next = advance_planes(planes, 1, 1);
    assert_eq!(next, DeltaPlanes { neg3: 0, neg2: 0, neg1: 0, zero: 0, pos1: 0, pos2: 0, pos3: 0, pos4: 1 });
}
