use vstd::prelude::*;

verus! {

/// One base of the reference window. The base at coordinate `p` is drawn over
/// `[p - 0.5, p + 0.5)`; positions here are stored shifted up by one half, so
/// `start_position == p` and `end_position == p + 1`.
#[derive(Clone, Copy, Debug, PartialEq, Eq, Structural)]
pub struct Nucleobase {
    pub start_position: u64,
    pub end_position: u64,
    pub marker_type: char,
    pub row: u8,
}

impl Nucleobase {
    pub fn get_marker_type(&self) -> (r: char)
        ensures
            r == self.marker_type,
    {
        self.marker_type
    }
}

/// The reference base at coordinate `start + i` for byte `i` of `bytes`.
pub open spec fn reference_base(start: u64, bytes: Seq<u8>, i: int) -> Nucleobase {
    Nucleobase {
        start_position: (start + i) as u64,
        end_position: (start + i + 1) as u64,
        marker_type: bytes[i] as char,
        row: 0,
    }
}

/// Turns the bytes fetched for `[start, start + bytes.len())` into the
/// coordinate-indexed reference window, one base per byte.
pub fn reference_window(start: u64, bytes: &Vec<u8>) -> (r: Vec<Nucleobase>)
    requires
        start + bytes@.len() < u64::MAX,
    ensures
        r@.len() == bytes@.len(),
        forall|i: int| 0 <= i < bytes@.len() ==> r@[i] == reference_base(start, bytes@, i),
{
    let mut fasta: Vec<Nucleobase> = Vec::new();
    let mut ind: u64 = start;
    let mut i: usize = 0;
    while i < bytes.len()
        invariant
            i <= bytes@.len(),
            ind == start + i,
            start + bytes@.len() < u64::MAX,
            fasta@.len() == i,
            forall|k: int| 0 <= k < i ==> fasta@[k] == reference_base(start, bytes@, k),
        decreases bytes@.len() - i,
    {
        fasta.push(
            Nucleobase {
                start_position: ind,
                end_position: ind + 1,
                marker_type: bytes[i] as char,
                row: 0,
            },
        );
        ind += 1;
        i += 1;
    }
    fasta
}

} // verus!
