use gensbock::alignment::{make_alignment, CigarOp};
use gensbock::fasta::{get_fasta_length, reference_length};
use gensbock::flags::decode_flags;
use gensbock::reference::reference_window;
use gensbock::variants::{record_variants, VariantType};

#[test]
fn flags_are_split_into_bits() {
    assert_eq!(decode_flags(0x63), vec![0x1, 0x2, 0x20, 0x40]);
    assert_eq!(decode_flags(0), Vec::<u16>::new());
    assert_eq!(
        decode_flags(0xFFFF),
        vec![0x1, 0x2, 0x4, 0x8, 0x10, 0x20, 0x40, 0x80, 0x100, 0x200, 0x400, 0x800]
    );
    assert_eq!(decode_flags(0x1000), Vec::<u16>::new());
}

#[test]
fn alignment_from_record_fields() {
    let a = make_alignment(&b"ACGT".to_vec(), 7, vec![CigarOp::Match(4)], 0x41, String::from("q"), true, 20, 1, 1);
    assert_eq!(a.sequence, vec!['A', 'C', 'G', 'T']);
    assert_eq!(a.length, 4);
    assert_eq!(a.flags, vec![0x1, 0x40]);
    assert_eq!(a.pos, 7);
    assert_eq!(a.mate_pos, 20);
    assert_eq!(a.read_span(), (7, 120));
}

#[test]
fn read_span_of_downstream_and_unpaired_reads() {
    let down = make_alignment(&b"ACGT".to_vec(), 30, vec![CigarOp::Match(4)], 0x1, String::from("q"), true, 20, 1, 1);
    assert_eq!(down.read_span(), (20, 34));
    let single = make_alignment(&b"ACGT".to_vec(), 30, vec![CigarOp::Match(4)], 0, String::from("q"), false, 20, 1, 1);
    assert_eq!(single.read_span(), (30, 34));
}

#[test]
fn reference_window_positions() {
    let w = reference_window(5, &b"TGC".to_vec());
    assert_eq!(w.len(), 3);
    assert_eq!(w[0].get_marker_type(), 'T');
    assert_eq!((w[2].start_position, w[2].end_position), (7, 8));
    assert_eq!(w[1].marker_type, 'G');
    assert_eq!(w[1].row, 0);
}

#[test]
fn empty_reference_test() {
    let ref_bases = reference_window(11, &Vec::new());

    let compare_ref: Vec<gensbock::reference::Nucleobase> = Vec::new();

    assert_eq!(compare_ref, ref_bases);
}

#[test]
fn read_as_text() {
    let a = make_alignment(&b"ACGT".to_vec(), 1207, vec![CigarOp::SoftClip(2), CigarOp::Match(10), CigarOp::Ins(1), CigarOp::Del(3)], 0, String::from("read7"), false, 0, 0, 0);
    let text: String = a.describe().into_iter().collect();
    assert_eq!(text, "(ACGT, 1207, 2S10M1I3D, read7)");
    let b = make_alignment(&Vec::new(), -1, Vec::new(), 0, String::new(), false, 0, 0, 0);
    let text: String = b.describe().into_iter().collect();
    assert_eq!(text, "(, -1, , )");
}

fn alleles(list: &[&str]) -> Vec<Vec<u8>> {
    list.iter().map(|a| a.as_bytes().to_vec()).collect()
}

#[test]
fn symbolic_alleles_use_the_end_position() {
    let v = record_variants(10, Some(20), &alleles(&["ACG", "<DEL>", "<INV>", "<DUP>"]));
    assert_eq!(v.len(), 3);
    assert_eq!(v[0].var_type, VariantType::Deletion);
    assert_eq!(v[0].alternatives, None);
    assert_eq!((v[0].start_position, v[0].end_position), (19, 39));
    assert_eq!(v[1].var_type, VariantType::Inversion);
    assert_eq!(v[1].alternatives, Some(b"GCA".to_vec()));
    assert_eq!(v[2].var_type, VariantType::Duplicate);
    assert_eq!(v[2].alternatives, Some(b"ACGACG".to_vec()));
    assert_eq!(v[2].reference, b"ACG".to_vec());
}

#[test]
fn copy_number_alleles_are_skipped() {
    let v = record_variants(10, None, &alleles(&["A", "<CN2>", "<CN0>", "T"]));
    assert_eq!(v.len(), 1);
    assert_eq!(v[0].alternatives, Some(b"T".to_vec()));
    // Not a copy-number allele: more than one digit, so an insertion.
    let w = record_variants(10, None, &alleles(&["A", "<CN12>"]));
    assert_eq!(w.len(), 1);
    assert_eq!(w[0].var_type, VariantType::Insertion);
}

#[test]
fn short_alleles_by_length() {
    let v = record_variants(10, None, &alleles(&["AC", "GT", "ACTT", "A"]));
    assert_eq!(v.len(), 3);
    assert_eq!(v[0].var_type, VariantType::Variant);
    assert_eq!((v[0].start_position, v[0].end_position), (19, 23));
    assert_eq!(v[1].var_type, VariantType::Insertion);
    assert_eq!((v[1].start_position, v[1].end_position), (20, 24));
    assert_eq!(v[2].var_type, VariantType::Deletion);
    assert_eq!((v[2].start_position, v[2].end_position), (21, 23));
}

/// Index line of the reference file used by the reading tests: one
/// sequence, chr1, of 123 bases.
const REF_FA_INDEX: &str = "chr1\t123\t6\t60\t61\n";

#[test]
fn get_reference_length_test() {
    let ref_length = get_fasta_length(&REF_FA_INDEX.as_bytes().to_vec()).unwrap();

    let compare_length: u64 = 123;

    assert_eq!(ref_length, compare_length);
}

#[test]
fn reference_length_sums_sequences() {
    let fai = "chr1\t123\t6\t60\t61\nchr2\t7\t140\t60\t61\n";
    assert_eq!(get_fasta_length(&fai.as_bytes().to_vec()), Some(130));
    assert_eq!(reference_length(&vec![u64::MAX, 1]), None);
    assert_eq!(reference_length(&Vec::new()), Some(0));
}

#[test]
fn malformed_index_has_no_length() {
    assert_eq!(get_fasta_length(&b"chr1\tabc\n".to_vec()), None);
}

#[test]
fn reference_test() {
    let ref_bases = reference_window(1, &b"TGCCGGGGT".to_vec());

    let bases = String::from("TGCCGGGGT");
    assert_eq!(ref_bases.len(), 9);
    let mut pos: u64 = 1;
    for (b, c) in ref_bases.iter().zip(bases.chars()) {
        assert_eq!(b.start_position, pos);
        assert_eq!(b.end_position, pos + 1);
        assert_eq!(b.marker_type, c);
        assert_eq!(b.row, 0);
        pos += 1;
    }
    assert_eq!(pos, 10);
}
