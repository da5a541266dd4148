use vstd::prelude::*;

verus! {

/// Kind of a variant call.
#[derive(Clone, Copy, Debug, PartialEq, Eq, Structural)]
pub enum VariantType {
    Deletion,
    Insertion,
    Duplicate,
    Inversion,
    Variant,
}

/// One variant of a record, for one alternative allele. Coordinates are
/// stored in half bases: the variant is drawn over
/// `[start_position / 2, end_position / 2)`.
#[derive(Clone, Debug, PartialEq)]
pub struct Variant {
    pub reference: Vec<u8>,
    pub alternatives: Option<Vec<u8>>,
    pub start_position: i64,
    pub end_position: i64,
    pub var_type: VariantType,
}

/// An annotated variant of a report.
#[derive(Clone, Debug, PartialEq)]
pub struct Report {
    pub id: String,
    pub name: String,
    pub position: i64,
    pub reference: String,
    pub alternatives: String,
    pub ann: Option<Vec<Vec<String>>>,
}

/// The value of a `Variant`.
pub struct VariantView {
    pub reference: Seq<u8>,
    pub alternatives: Option<Seq<u8>>,
    pub start: int,
    pub end: int,
    pub var_type: VariantType,
}

impl View for Variant {
    type V = VariantView;

    open spec fn view(&self) -> VariantView {
        VariantView {
            reference: self.reference@,
            alternatives: match self.alternatives {
                Some(a) => Some(a@),
                None => None,
            },
            start: self.start_position as int,
            end: self.end_position as int,
            var_type: self.var_type,
        }
    }
}

/// The symbolic allele `<XYZ>`.
pub open spec fn symbolic(x: u8, y: u8, z: u8) -> Seq<u8> {
    seq![60u8, x, y, z, 62u8]
}

pub open spec fn is_deletion_allele(a: Seq<u8>) -> bool {
    a == symbolic(68u8, 69u8, 76u8)
}

pub open spec fn is_inversion_allele(a: Seq<u8>) -> bool {
    a == symbolic(73u8, 78u8, 86u8)
}

pub open spec fn is_duplication_allele(a: Seq<u8>) -> bool {
    a == symbolic(68u8, 85u8, 80u8)
}

/// A copy-number allele `<CNd>` with one decimal digit `d`.
pub open spec fn is_copy_number_allele(a: Seq<u8>) -> bool {
    &&& a.len() == 5
    &&& a[0] == 60u8
    &&& a[1] == 67u8
    &&& a[2] == 78u8
    &&& 48u8 <= a[3] <= 57u8
    &&& a[4] == 62u8
}

/// Whether the record's alleles call for an END position: any alternative
/// allele is `<DEL>`, `<INV>` or `<DUP>`.
pub open spec fn needs_end(alleles: Seq<Vec<u8>>) -> bool {
    exists|i: int|
        1 <= i < alleles.len() && (is_deletion_allele(#[trigger] alleles[i]@) || is_inversion_allele(
            alleles[i]@,
        ) || is_duplication_allele(alleles[i]@))
}

pub open spec fn reversed(s: Seq<u8>) -> Seq<u8> {
    Seq::new(s.len(), |i: int| s[s.len() - 1 - i])
}

/// The variant for one alternative allele `alt` of a record at `pos` with
/// reference allele `rf` and END position `end`; none for a copy-number
/// allele. Symbolic alleles span from the base at `pos` to the base before
/// `end`; a substitution spans the reference allele; an insertion is drawn
/// half a base later and a deletion a whole base later, past the anchor
/// base. The reference length counts modulo 256.
pub open spec fn variant_for(pos: int, end: int, rf: Seq<u8>, alt: Seq<u8>) -> Option<VariantView> {
    let len = rf.len() % 256;
    if is_deletion_allele(alt) {
        Some(VariantView { reference: rf, alternatives: None, start: 2 * pos - 1, end: 2 * end - 1, var_type: VariantType::Deletion })
    } else if is_inversion_allele(alt) {
        Some(VariantView { reference: rf, alternatives: Some(reversed(rf)), start: 2 * pos - 1, end: 2 * end - 1, var_type: VariantType::Inversion })
    } else if is_duplication_allele(alt) {
        Some(VariantView { reference: rf, alternatives: Some(rf + rf), start: 2 * pos - 1, end: 2 * end - 1, var_type: VariantType::Duplicate })
    } else if is_copy_number_allele(alt) {
        None
    } else if alt.len() == rf.len() {
        Some(VariantView { reference: rf, alternatives: Some(alt), start: 2 * pos - 1, end: 2 * pos - 1 + 2 * len, var_type: VariantType::Variant })
    } else if alt.len() > rf.len() {
        Some(VariantView { reference: rf, alternatives: Some(alt), start: 2 * pos, end: 2 * pos + 2 * len, var_type: VariantType::Insertion })
    } else {
        Some(VariantView { reference: rf, alternatives: Some(alt), start: 2 * pos + 1, end: 2 * pos - 1 + 2 * len, var_type: VariantType::Deletion })
    }
}

/// The variants of the first `k` alleles of a record (the reference allele
/// at index 0 yields none), in allele order.
pub open spec fn record_variants_upto(pos: int, end: int, alleles: Seq<Vec<u8>>, k: nat) -> Seq<VariantView>
    decreases k,
{
    if k <= 1 {
        seq![]
    } else {
        let before = record_variants_upto(pos, end, alleles, (k - 1) as nat);
        match variant_for(pos, end, alleles[0]@, alleles[k - 1]@) {
            Some(v) => before.push(v),
            None => before,
        }
    }
}

pub open spec fn variant_views(v: Seq<Variant>) -> Seq<VariantView> {
    v.map_values(|x: Variant| x@)
}

/// Relies on regex's `Regex::new` and `Regex::is_match` for the pattern
/// `^<CN\d>$`, over the allele's bytes read as characters. Those characters
/// all lie below U+0100, where the only decimal digits are `0` to `9`.
#[verifier::external_body]
fn is_copy_number(allele: &Vec<u8>) -> (r: bool)
    ensures
        r == is_copy_number_allele(allele@),
{
    let text: String = allele.iter().map(|b| *b as char).collect();
    regex::Regex::new(r"^<CN\d>$").unwrap().is_match(&text)
}

fn is_symbolic(a: &Vec<u8>, x: u8, y: u8, z: u8) -> (r: bool)
    ensures
        r == (a@ == symbolic(x, y, z)),
{
    let r = a.len() == 5 && a[0] == 60u8 && a[1] == x && a[2] == y && a[3] == z && a[4] == 62u8;
    proof {
        if r {
            assert(a@ =~= symbolic(x, y, z));
        }
    }
    r
}

fn copy_bytes(s: &Vec<u8>) -> (r: Vec<u8>)
    ensures
        r@ == s@,
{
    let mut r: Vec<u8> = Vec::new();
    let mut i: usize = 0;
    while i < s.len()
        invariant
            i <= s@.len(),
            r@ == s@.take(i as int),
        decreases s@.len() - i,
    {
        r.push(s[i]);
        proof {
            assert(s@.take(i + 1) =~= s@.take(i as int).push(s@[i as int]));
        }
        i += 1;
    }
    proof {
        assert(s@.take(s@.len() as int) =~= s@);
    }
    r
}

fn reverse_bytes(s: &Vec<u8>) -> (r: Vec<u8>)
    ensures
        r@ == reversed(s@),
{
    let mut r: Vec<u8> = Vec::new();
    let mut i: usize = s.len();
    while i > 0
        invariant
            i <= s@.len(),
            r@ == reversed(s@).take(s@.len() - i),
        decreases i,
    {
        i -= 1;
        r.push(s[i]);
        proof {
            assert(reversed(s@).take(s@.len() - i) =~= reversed(s@).take(s@.len() - i - 1).push(s@[i as int]));
        }
    }
    proof {
        assert(reversed(s@).take(s@.len() as int) =~= reversed(s@));
    }
    r
}

fn doubled_bytes(s: &Vec<u8>) -> (r: Vec<u8>)
    ensures
        r@ == s@ + s@,
{
    let mut r = copy_bytes(s);
    let mut tail = copy_bytes(s);
    r.append(&mut tail);
    r
}

/// The variant for one alternative allele of a record; `None` for a
/// copy-number allele.
fn variant_of_allele(pos: i64, end: i32, rf: &Vec<u8>, alt: &Vec<u8>) -> (r: Option<Variant>)
    requires
        -0x3FFF_FFFF_FFFF_FF00 <= pos <= 0x3FFF_FFFF_FFFF_FF00,
    ensures
        match r {
            Some(v) => variant_for(pos as int, end as int, rf@, alt@) == Some(v@),
            None => variant_for(pos as int, end as int, rf@, alt@) is None,
        },
{
    let len: i64 = (rf.len() % 256) as i64;
    if is_symbolic(alt, 68u8, 69u8, 76u8) {
        Some(Variant { reference: copy_bytes(rf), alternatives: None, start_position: 2 * pos - 1, end_position: 2 * end as i64 - 1, var_type: VariantType::Deletion })
    } else if is_symbolic(alt, 73u8, 78u8, 86u8) {
        Some(Variant { reference: copy_bytes(rf), alternatives: Some(reverse_bytes(rf)), start_position: 2 * pos - 1, end_position: 2 * end as i64 - 1, var_type: VariantType::Inversion })
    } else if is_symbolic(alt, 68u8, 85u8, 80u8) {
        Some(Variant { reference: copy_bytes(rf), alternatives: Some(doubled_bytes(rf)), start_position: 2 * pos - 1, end_position: 2 * end as i64 - 1, var_type: VariantType::Duplicate })
    } else if is_copy_number(alt) {
        None
    } else if alt.len() == rf.len() {
        Some(Variant { reference: copy_bytes(rf), alternatives: Some(copy_bytes(alt)), start_position: 2 * pos - 1, end_position: 2 * pos - 1 + 2 * len, var_type: VariantType::Variant })
    } else if alt.len() > rf.len() {
        Some(Variant { reference: copy_bytes(rf), alternatives: Some(copy_bytes(alt)), start_position: 2 * pos, end_position: 2 * pos + 2 * len, var_type: VariantType::Insertion })
    } else {
        Some(Variant { reference: copy_bytes(rf), alternatives: Some(copy_bytes(alt)), start_position: 2 * pos + 1, end_position: 2 * pos - 1 + 2 * len, var_type: VariantType::Deletion })
    }
}

/// The variants of one variant record at `pos`, one for each alternative
/// allele (`alleles[0]` is the reference allele) that is not a copy-number
/// allele, in allele order. `end` is the record's END position, which the
/// symbolic alleles `<DEL>`, `<INV>` and `<DUP>` need.
pub fn record_variants(pos: i64, end: Option<i32>, alleles: &Vec<Vec<u8>>) -> (r: Vec<Variant>)
    requires
        alleles@.len() >= 1,
        needs_end(alleles@) ==> end is Some,
        -0x3FFF_FFFF_FFFF_FF00 <= pos <= 0x3FFF_FFFF_FFFF_FF00,
    ensures
        variant_views(r@) == record_variants_upto(
            pos as int,
            match end {
                Some(e) => e as int,
                None => 0,
            },
            alleles@,
            alleles@.len(),
        ),
{
    let ghost e: int = match end {
        Some(e) => e as int,
        None => 0,
    };
    let end_pos: i32 = match end {
        Some(e) => e,
        None => 0,
    };
    let mut variants: Vec<Variant> = Vec::new();
    assert(variant_views(variants@) =~= Seq::<VariantView>::empty());
    let mut i: usize = 1;
    while i < alleles.len()
        invariant
            1 <= i <= alleles@.len(),
            end_pos == e,
            -0x3FFF_FFFF_FFFF_FF00 <= pos <= 0x3FFF_FFFF_FFFF_FF00,
            variant_views(variants@) == record_variants_upto(pos as int, e, alleles@, i as nat),
        decreases alleles@.len() - i,
    {
        let ghost before = variants@;
        match variant_of_allele(pos, end_pos, &alleles[0], &alleles[i]) {
            Some(v) => {
                variants.push(v);
                assert(variant_views(variants@) =~= variant_views(before).push(v@));
            },
            None => {},
        }
        i += 1;
    }
    variants
}

} // verus!
