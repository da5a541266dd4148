use vstd::prelude::*;

verus! {

/// The sequence lengths, in index order, that a FASTA index (`.fai` text)
/// describes; none when the text is not a valid index.
pub uninterp spec fn fai_sequence_lengths(fai: Seq<u8>) -> Option<Seq<u64>>;

/// Relies on bio's `fasta::Index::new` to parse index text and on
/// `Index::sequences` to list the described sequences in index order.
#[verifier::external_body]
fn index_sequence_lengths(fai: &Vec<u8>) -> (r: Option<Vec<u64>>)
    ensures
        match r {
            Some(v) => fai_sequence_lengths(fai@) == Some(v@),
            None => fai_sequence_lengths(fai@) is None,
        },
{
    match bio::io::fasta::Index::new(fai.as_slice()) {
        Ok(index) => Some(index.sequences().iter().map(|s| s.len).collect()),
        Err(_) => None,
    }
}

/// Sum of the first `k` lengths.
pub open spec fn total_length(lengths: Seq<u64>, k: nat) -> int
    decreases k,
{
    if k == 0 {
        0
    } else {
        total_length(lengths, (k - 1) as nat) + lengths[k - 1]
    }
}

proof fn lemma_total_grows(lengths: Seq<u64>, j: nat, k: nat)
    requires
        j <= k <= lengths.len(),
    ensures
        total_length(lengths, j) <= total_length(lengths, k),
    decreases k,
{
    if j < k {
        lemma_total_grows(lengths, j, (k - 1) as nat);
    }
}

/// The summed length of the reference sequences, if it fits in 64 bits.
pub open spec fn reference_length_of(lengths: Seq<u64>) -> Option<u64> {
    if total_length(lengths, lengths.len()) <= u64::MAX {
        Some(total_length(lengths, lengths.len()) as u64)
    } else {
        None
    }
}

/// Sums the lengths of the reference sequences; `None` when the sum does not
/// fit in 64 bits.
pub fn reference_length(lengths: &Vec<u64>) -> (r: Option<u64>)
    ensures
        r == reference_length_of(lengths@),
{
    let mut total: u64 = 0;
    let mut i: usize = 0;
    while i < lengths.len()
        invariant
            i <= lengths@.len(),
            total == total_length(lengths@, i as nat),
        decreases lengths@.len() - i,
    {
        if total > u64::MAX - lengths[i] {
            proof {
                lemma_total_grows(lengths@, (i + 1) as nat, lengths@.len());
            }
            return None;
        }
        total = total + lengths[i];
        i += 1;
    }
    Some(total)
}

/// Length of the reference that a FASTA index describes: the summed length
/// of its sequences. `None` when the index text does not parse or the sum
/// does not fit in 64 bits.
pub fn get_fasta_length(fai: &Vec<u8>) -> (r: Option<u64>)
    ensures
        r == match fai_sequence_lengths(fai@) {
            Some(v) => reference_length_of(v),
            None => None,
        },
{
    match index_sequence_lengths(fai) {
        Some(lengths) => reference_length(&lengths),
        None => None,
    }
}

} // verus!
