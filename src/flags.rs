use vstd::prelude::*;

verus! {

/// Number of flag bits of an alignment record that carry a meaning.
pub const FLAG_BIT_COUNT: u16 = 12;

/// The single-bit flags among the lowest `k` bits that are set in `code`,
/// lowest bit first.
pub open spec fn set_flags(code: u16, k: nat) -> Seq<u16>
    decreases k,
{
    if k == 0 {
        seq![]
    } else {
        let bit: u16 = 1u16 << ((k - 1) as u16);
        let below = set_flags(code, (k - 1) as nat);
        if bit & code == bit {
            below.push(bit)
        } else {
            below
        }
    }
}

/// The defined flags (0x1 up to 0x800) that are set in `code`, in ascending order.
pub open spec fn decoded_flags(code: u16) -> Seq<u16> {
    set_flags(code, FLAG_BIT_COUNT as nat)
}

/// Splits an alignment flag word into its set single-bit flags, lowest first.
pub fn decode_flags(code: u16) -> (r: Vec<u16>)
    ensures
        r@ == decoded_flags(code),
{
    let mut read_map: Vec<u16> = Vec::new();
    let mut i: u16 = 0;
    while i < FLAG_BIT_COUNT
        invariant
            i <= FLAG_BIT_COUNT,
            read_map@ == set_flags(code, i as nat),
        decreases FLAG_BIT_COUNT - i,
    {
        let flag: u16 = 1u16 << i;
        if flag & code == flag {
            read_map.push(flag);
        }
        i += 1;
    }
    read_map
}

} // verus!
