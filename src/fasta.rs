//! Splitting the lines of a FASTA text into its two sequences.
use vstd::prelude::*;

verus! {

/// The first symbol `>` of a header line.
pub const HEADER: u8 = 62;

/// The text does not hold exactly two sequences.
#[derive(Debug, PartialEq, Eq, Structural)]
pub struct ParseFailure;

/// A header line starts a new record.
pub open spec fn is_header(line: Seq<u8>) -> bool {
    line.len() > 0 && line[0] == HEADER
}

/// After the first `k` lines: the records closed so far and the one being read.
/// A header closes the record being read unless it is still empty; any other
/// line is appended to it.
pub open spec fn fasta_scan(lines: Seq<Seq<u8>>, k: nat) -> (Seq<Seq<u8>>, Seq<u8>)
    decreases k,
{
    if k == 0 {
        (Seq::empty(), Seq::empty())
    } else {
        let (done, current) = fasta_scan(lines, (k - 1) as nat);
        let line = lines[k - 1];
        if is_header(line) {
            if current.len() > 0 {
                (done.push(current), Seq::empty())
            } else {
                (done, current)
            }
        } else {
            (done, current + line)
        }
    }
}

/// The records of the text: those closed by a header, then the last one.
pub open spec fn fasta_records(lines: Seq<Seq<u8>>) -> Seq<Seq<u8>> {
    let (done, current) = fasta_scan(lines, lines.len());
    done.push(current)
}

/// The byte views of the lines.
pub open spec fn lines_view(lines: Seq<Vec<u8>>) -> Seq<Seq<u8>> {
    lines.map_values(|l: Vec<u8>| l@)
}

/// The two sequences of a FASTA text given as its lines (without line
/// breaks): every non-header line is appended to the record that the last
/// header opened. Fails unless there are exactly two records.
pub fn parse_fasta(lines: &Vec<Vec<u8>>) -> (res: Result<(Vec<u8>, Vec<u8>), ParseFailure>)
    ensures
        res is Ok <==> fasta_records(lines_view(lines@)).len() == 2,
        res matches Ok((seq1, seq2)) ==> seq1@ == fasta_records(lines_view(lines@))[0] && seq2@
            == fasta_records(lines_view(lines@))[1],
{
    let ghost ls = lines_view(lines@);
    let mut sequences: Vec<Vec<u8>> = Vec::new();
    let mut current_sequence: Vec<u8> = Vec::new();
    let mut k: usize = 0;
    while k < lines.len()
        invariant
            k <= lines@.len(),
            ls == lines_view(lines@),
            ({
                let (done, current) = fasta_scan(ls, k as nat);
                &&& lines_view(sequences@) == done
                &&& current_sequence@ == current
            }),
        decreases lines@.len() - k,
    {
        let line = &lines[k];
        assert(line@ == ls[k as int]);
        if line.len() > 0 && line[0] == HEADER {
            if current_sequence.len() > 0 {
                let ghost before = sequences@;
                sequences.push(current_sequence);
                current_sequence = Vec::new();
                assert(lines_view(sequences@) =~= lines_view(before).push(fasta_scan(ls, k as nat).1));
            }
        } else {
            let ghost start = current_sequence@;
            let mut j: usize = 0;
            while j < line.len()
                invariant
                    j <= line@.len(),
                    current_sequence@ == start + line@.take(j as int),
                decreases line@.len() - j,
            {
                current_sequence.push(line[j]);
                j = j + 1;
                assert(current_sequence@ =~= start + line@.take(j as int));
            }
            assert(line@.take(line@.len() as int) =~= line@);
        }
        k = k + 1;
    }
    assert(ls.len() == lines@.len());
    let ghost before = sequences@;
    sequences.push(current_sequence);
    assert(lines_view(sequences@) =~= fasta_records(ls));
    if sequences.len() != 2 {
        return Err(ParseFailure);
    }
    let seq2 = sequences.pop().unwrap();
    let seq1 = sequences.pop().unwrap();
    Ok((seq1, seq2))
}

} // verus!
