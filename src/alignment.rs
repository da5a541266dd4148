use vstd::prelude::*;
use crate::flags::{decode_flags, decoded_flags};

verus! {

/// Assumed footprint of a mate read, in bases. The mate record itself is
/// never fetched, so its end is approximated as its start plus this amount.
pub const MATE_FOOTPRINT: i64 = 100;

/// What a rendered mark stands for.
#[derive(Clone, Copy, Debug, PartialEq, Eq, Structural)]
pub enum Marker {
    A,
    T,
    C,
    G,
    N,
    Deletion,
    Insertion,
    Match,
    Pairing,
}

/// One CIGAR operation: its kind and its length.
#[derive(Clone, Copy, Debug, PartialEq, Eq, Structural)]
pub enum CigarOp {
    Match(u32),
    Ins(u32),
    Del(u32),
    RefSkip(u32),
    SoftClip(u32),
    HardClip(u32),
    Pad(u32),
    Equal(u32),
    Diff(u32),
}

impl CigarOp {
    pub open spec fn spec_len(&self) -> nat {
        match *self {
            CigarOp::Match(n) => n as nat,
            CigarOp::Ins(n) => n as nat,
            CigarOp::Del(n) => n as nat,
            CigarOp::RefSkip(n) => n as nat,
            CigarOp::SoftClip(n) => n as nat,
            CigarOp::HardClip(n) => n as nat,
            CigarOp::Pad(n) => n as nat,
            CigarOp::Equal(n) => n as nat,
            CigarOp::Diff(n) => n as nat,
        }
    }

    /// Whether the operation reads characters of the read's sequence.
    pub open spec fn reads_bases(&self) -> bool {
        match *self {
            CigarOp::Match(_) | CigarOp::Ins(_) | CigarOp::SoftClip(_) => true,
            _ => false,
        }
    }

    /// The length of the operation.
    pub fn len(&self) -> (r: u32)
        ensures
            r as nat == self.spec_len(),
    {
        match *self {
            CigarOp::Match(n) => n,
            CigarOp::Ins(n) => n,
            CigarOp::Del(n) => n,
            CigarOp::RefSkip(n) => n,
            CigarOp::SoftClip(n) => n,
            CigarOp::HardClip(n) => n,
            CigarOp::Pad(n) => n,
            CigarOp::Equal(n) => n,
            CigarOp::Diff(n) => n,
        }
    }
}

/// One aligned read, decoded from an alignment record.
#[derive(Clone, Debug)]
pub struct Alignment {
    pub sequence: Vec<char>,
    /// 0-based start of the first reference-consuming operation.
    pub pos: i32,
    pub length: u16,
    pub flags: Vec<u16>,
    pub name: String,
    pub cigar: Vec<CigarOp>,
    pub paired: bool,
    pub mate_pos: i32,
    pub tid: i32,
    pub mate_tid: i32,
}

/// Cursor positions of a CIGAR walk: characters of the sequence consumed,
/// reference positions consumed, and whether a soft clip has been seen.
pub struct Cursor {
    pub q: int,
    pub r: int,
    pub clipped: bool,
}

/// The cursor after one more operation. ReferenceSkip, Pad, SequenceEqual
/// and SequenceMismatch move neither cursor; the first soft clip moves only
/// the query cursor, any later one moves both.
pub open spec fn advance(c: Cursor, op: CigarOp) -> Cursor {
    let n = op.spec_len() as int;
    match op {
        CigarOp::Match(_) => Cursor { q: c.q + n, r: c.r + n, clipped: c.clipped },
        CigarOp::Ins(_) => Cursor { q: c.q + n, r: c.r, clipped: c.clipped },
        CigarOp::Del(_) => Cursor { q: c.q, r: c.r + n, clipped: c.clipped },
        CigarOp::SoftClip(_) => if c.clipped {
            Cursor { q: c.q + n, r: c.r + n, clipped: true }
        } else {
            Cursor { q: c.q + n, r: c.r, clipped: true }
        },
        CigarOp::HardClip(_) => Cursor { q: c.q + n, r: c.r, clipped: c.clipped },
        _ => c,
    }
}

/// The cursor after the first `k` operations of `ops`.
pub open spec fn cursor(ops: Seq<CigarOp>, k: nat) -> Cursor
    decreases k,
{
    if k == 0 {
        Cursor { q: 0, r: 0, clipped: false }
    } else {
        advance(cursor(ops, (k - 1) as nat), ops[k - 1])
    }
}

/// Sum of the lengths of the first `k` operations.
pub open spec fn cigar_total(ops: Seq<CigarOp>, k: nat) -> int
    decreases k,
{
    if k == 0 {
        0
    } else {
        cigar_total(ops, (k - 1) as nat) + ops[k - 1].spec_len()
    }
}

/// Cursors never run ahead of the summed operation lengths.
pub proof fn lemma_cursor_bounded(ops: Seq<CigarOp>, k: nat)
    requires
        k <= ops.len(),
    ensures
        0 <= cursor(ops, k).q <= cigar_total(ops, k),
        0 <= cursor(ops, k).r <= cigar_total(ops, k),
    decreases k,
{
    if k > 0 {
        lemma_cursor_bounded(ops, (k - 1) as nat);
    }
}

/// The summed length of a prefix never exceeds that of a longer prefix.
pub proof fn lemma_total_monotone(ops: Seq<CigarOp>, j: nat, k: nat)
    requires
        j <= k <= ops.len(),
    ensures
        cigar_total(ops, j) <= cigar_total(ops, k),
    decreases k,
{
    if j < k {
        lemma_total_monotone(ops, j, (k - 1) as nat);
    }
}

impl Alignment {
    /// Every operation that reads sequence characters finds them in the
    /// sequence, and the operation lengths sum to at most `u32::MAX`.
    pub open spec fn well_formed(&self) -> bool {
        let ops = self.cigar@;
        &&& cigar_total(ops, ops.len()) <= u32::MAX
        &&& forall|i: int|
            0 <= i < ops.len() && (#[trigger] ops[i]).reads_bases() ==> cursor(ops, i as nat).q
                + ops[i].spec_len() <= self.sequence@.len()
    }

    /// Decides `well_formed`.
    pub fn is_well_formed(&self) -> (r: bool)
        ensures
            r == self.well_formed(),
    {
        let ghost ops = self.cigar@;
        let n_ops: usize = self.cigar.len();
        let seq_len: usize = self.sequence.len();
        let mut q: u64 = 0;
        let mut total: u64 = 0;
        let mut clipped: bool = false;
        let mut k: usize = 0;
        while k < n_ops
            invariant
                k <= n_ops,
                n_ops == ops.len(),
                ops == self.cigar@,
                seq_len == self.sequence@.len(),
                total == cigar_total(ops, k as nat),
                total <= u32::MAX,
                q == cursor(ops, k as nat).q,
                clipped == cursor(ops, k as nat).clipped,
                forall|i: int|
                    0 <= i < k && (#[trigger] ops[i]).reads_bases() ==> cursor(ops, i as nat).q
                        + ops[i].spec_len() <= self.sequence@.len(),
            decreases n_ops - k,
        {
            proof {
                lemma_cursor_bounded(ops, k as nat);
            }
            let op = self.cigar[k];
            let n: u64 = op.len() as u64;
            if total + n > 0xFFFF_FFFF {
                proof {
                    assert(cigar_total(ops, (k + 1) as nat) > u32::MAX);
                    lemma_total_monotone(ops, (k + 1) as nat, ops.len());
                }
                return false;
            }
            let reads = match op {
                CigarOp::Match(_) | CigarOp::Ins(_) | CigarOp::SoftClip(_) => true,
                _ => false,
            };
            if reads && q + n > seq_len as u64 {
                assert(ops[k as int].reads_bases());
                return false;
            }
            match op {
                CigarOp::Match(_) | CigarOp::Ins(_) => {
                    q = q + n;
                },
                CigarOp::SoftClip(_) => {
                    q = q + n;
                    clipped = true;
                },
                CigarOp::HardClip(_) => {
                    q = q + n;
                },
                _ => {},
            }
            total = total + n;
            k += 1;
        }
        true
    }

    /// First coordinate of the span that groups this read's marks: the read's
    /// own start, or its mate's when the mate lies upstream.
    pub open spec fn span_start(&self) -> int {
        if self.paired && self.pos > self.mate_pos {
            self.mate_pos as int
        } else {
            self.pos as int
        }
    }

    /// End of the span that groups this read's marks: the mate's approximate
    /// end when the mate lies downstream, else this read's end.
    pub open spec fn span_end(&self) -> int {
        if self.paired && self.pos <= self.mate_pos {
            self.mate_pos + MATE_FOOTPRINT
        } else {
            self.pos + self.length
        }
    }

    /// The read's `(read_start, read_end)` pair for the marks it produces.
    pub fn read_span(&self) -> (r: (i64, i64))
        ensures
            r.0 == self.span_start(),
            r.1 == self.span_end(),
    {
        if self.paired {
            if self.pos <= self.mate_pos {
                (self.pos as i64, self.mate_pos as i64 + MATE_FOOTPRINT)
            } else {
                (self.mate_pos as i64, self.pos as i64 + self.length as i64)
            }
        } else {
            (self.pos as i64, self.pos as i64 + self.length as i64)
        }
    }
}

/// The sequence bytes read as characters, one for one.
pub open spec fn chars_of(bytes: Seq<u8>) -> Seq<char> {
    bytes.map_values(|b: u8| b as char)
}

/// Builds a read from the fields of an alignment record: the sequence bytes
/// become characters, the length is the sequence length (kept to 16 bits) and
/// the flag word is split into its set flags.
pub fn make_alignment(
    sequence: &Vec<u8>,
    pos: i32,
    cigar: Vec<CigarOp>,
    flag_code: u16,
    name: String,
    paired: bool,
    mate_pos: i32,
    tid: i32,
    mate_tid: i32,
) -> (a: Alignment)
    ensures
        a.sequence@ == chars_of(sequence@),
        a.pos == pos,
        a.length == sequence@.len() as u16,
        a.flags@ == decoded_flags(flag_code),
        a.name == name,
        a.cigar == cigar,
        a.paired == paired,
        a.mate_pos == mate_pos,
        a.tid == tid,
        a.mate_tid == mate_tid,
{
    let mut chars: Vec<char> = Vec::new();
    let mut i: usize = 0;
    while i < sequence.len()
        invariant
            i <= sequence@.len(),
            chars@ == chars_of(sequence@.take(i as int)),
        decreases sequence@.len() - i,
    {
        chars.push(sequence[i] as char);
        proof {
            assert(sequence@.take(i + 1) == sequence@.take(i as int).push(sequence@[i as int]));
        }
        i += 1;
    }
    proof {
        assert(sequence@.take(sequence@.len() as int) == sequence@);
    }
    Alignment {
        sequence: chars,
        pos,
        length: sequence.len() as u16,
        flags: decode_flags(flag_code),
        name,
        cigar,
        paired,
        mate_pos,
        tid,
        mate_tid,
    }
}


/// The character of decimal digit `d`.
pub open spec fn digit_char(d: nat) -> char {
    ((d + 48) as u8) as char
}

/// Decimal text of `n`, without leading zeros.
pub open spec fn decimal(n: nat) -> Seq<char>
    decreases n,
{
    if n < 10 {
        seq![digit_char(n)]
    } else {
        decimal(n / 10).push(digit_char(n % 10))
    }
}

/// Decimal text of `i`, with a leading `-` when it is negative.
pub open spec fn signed_decimal(i: int) -> Seq<char> {
    if i < 0 {
        seq!['-'] + decimal((-i) as nat)
    } else {
        decimal(i as nat)
    }
}

/// The letter of an operation in CIGAR text.
pub open spec fn op_letter(op: CigarOp) -> char {
    match op {
        CigarOp::Match(_) => 'M',
        CigarOp::Ins(_) => 'I',
        CigarOp::Del(_) => 'D',
        CigarOp::RefSkip(_) => 'N',
        CigarOp::SoftClip(_) => 'S',
        CigarOp::HardClip(_) => 'H',
        CigarOp::Pad(_) => 'P',
        CigarOp::Equal(_) => '=',
        CigarOp::Diff(_) => 'X',
    }
}

/// CIGAR text of the first `k` operations: each length followed by its letter.
pub open spec fn cigar_text(ops: Seq<CigarOp>, k: nat) -> Seq<char>
    decreases k,
{
    if k == 0 {
        seq![]
    } else {
        cigar_text(ops, (k - 1) as nat) + decimal(ops[k - 1].spec_len()) + seq![op_letter(ops[k - 1])]
    }
}

/// Text form of a read: `(sequence, pos, cigar, name)`.
pub open spec fn read_text(a: Alignment) -> Seq<char> {
    seq!['('] + a.sequence@ + seq![',', ' '] + signed_decimal(a.pos as int) + seq![',', ' ']
        + cigar_text(a.cigar@, a.cigar@.len()) + seq![',', ' '] + a.name@ + seq![')']
}

fn push_decimal(n: u64, out: &mut Vec<char>)
    ensures
        final(out)@ == old(out)@ + decimal(n as nat),
    decreases n,
{
    if n >= 10 {
        push_decimal(n / 10, out);
    }
    let d: u8 = (n % 10) as u8;
    out.push((d + 48) as char);
    proof {
        if n >= 10 {
            assert(final(out)@ =~= old(out)@ + decimal(n as nat));
        } else {
            assert(final(out)@ =~= old(out)@ + decimal(n as nat));
        }
    }
}

fn push_text(text: &[char], out: &mut Vec<char>)
    ensures
        final(out)@ == old(out)@ + text@,
{
    let mut i: usize = 0;
    while i < text.len()
        invariant
            i <= text@.len(),
            out@ == old(out)@ + text@.take(i as int),
        decreases text@.len() - i,
    {
        out.push(text[i]);
        proof {
            assert(text@.take(i + 1) =~= text@.take(i as int).push(text@[i as int]));
        }
        i += 1;
    }
    proof {
        assert(text@.take(text@.len() as int) =~= text@);
    }
}

impl Alignment {
    /// The read as text: `(sequence, pos, cigar, name)`.
    pub fn describe(&self) -> (r: Vec<char>)
        ensures
            r@ == read_text(*self),
    {
        let mut out: Vec<char> = Vec::new();
        out.push('(');
        push_text(self.sequence.as_slice(), &mut out);
        out.push(',');
        out.push(' ');
        let ghost before_pos = out@;
        assert(before_pos =~= seq!['('] + self.sequence@ + seq![',', ' ']);
        if self.pos < 0 {
            out.push('-');
            push_decimal((-(self.pos as i64)) as u64, &mut out);
            assert(out@ =~= before_pos + signed_decimal(self.pos as int));
        } else {
            push_decimal(self.pos as u64, &mut out);
            assert(out@ =~= before_pos + signed_decimal(self.pos as int));
        }
        out.push(',');
        out.push(' ');
        let ghost before_cigar = out@;
        assert(before_cigar =~= seq!['('] + self.sequence@ + seq![',', ' '] + signed_decimal(
            self.pos as int,
        ) + seq![',', ' ']);
        assert(before_cigar + cigar_text(self.cigar@, 0) =~= before_cigar);
        let mut k: usize = 0;
        while k < self.cigar.len()
            invariant
                k <= self.cigar@.len(),
                out@ == before_cigar + cigar_text(self.cigar@, k as nat),
            decreases self.cigar@.len() - k,
        {
            let op = self.cigar[k];
            let ghost at = out@;
            push_decimal(op.len() as u64, &mut out);
            let letter = match op {
                CigarOp::Match(_) => 'M',
                CigarOp::Ins(_) => 'I',
                CigarOp::Del(_) => 'D',
                CigarOp::RefSkip(_) => 'N',
                CigarOp::SoftClip(_) => 'S',
                CigarOp::HardClip(_) => 'H',
                CigarOp::Pad(_) => 'P',
                CigarOp::Equal(_) => '=',
                CigarOp::Diff(_) => 'X',
            };
            out.push(letter);
            proof {
                assert(out@ =~= before_cigar + cigar_text(self.cigar@, (k + 1) as nat));
            }
            k += 1;
        }
        out.push(',');
        out.push(' ');
        let ghost before_name = out@;
        assert(before_name =~= before_cigar + cigar_text(self.cigar@, self.cigar@.len()) + seq![',', ' ']);
        let name = self.name.as_str();
        let n: usize = name.unicode_len();
        let mut i: usize = 0;
        while i < n
            invariant
                i <= n,
                n == self.name@.len(),
                name@ == self.name@,
                out@ == before_name + self.name@.take(i as int),
            decreases n - i,
        {
            out.push(name.get_char(i));
            proof {
                assert(self.name@.take(i + 1) =~= self.name@.take(i as int).push(self.name@[i as int]));
            }
            i += 1;
        }
        out.push(')');
        proof {
            assert(self.name@.take(n as int) =~= self.name@);
            assert(out@ =~= read_text(*self));
        }
        out
    }
}

} // verus!
