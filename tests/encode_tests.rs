use gensbock::alignment::{make_alignment, Alignment, CigarOp, Marker};
use gensbock::encode::{base_marker, encode, make_nucleobases, AlignmentMatch, AlignmentNucleobase, MatchRun};
use gensbock::reference::{reference_window, Nucleobase};

const REF: &str = "ACGTACGTAC";
const FROM: u32 = 100;
const TO: u32 = 110;

fn window() -> Vec<Nucleobase> {
    reference_window(FROM as u64, &REF.as_bytes().to_vec())
}

fn read(seq: &str, pos: i32, cigar: Vec<CigarOp>) -> Alignment {
    make_alignment(&seq.as_bytes().to_vec(), pos, cigar, 0x1, String::from("r1"), false, -1, 0, 0)
}

fn paired_read(seq: &str, pos: i32, mate_pos: i32) -> Alignment {
    let len = seq.len() as u32;
    make_alignment(
        &seq.as_bytes().to_vec(),
        pos,
        vec![CigarOp::Match(len)],
        0x1 | 0x2,
        String::from("pair"),
        true,
        mate_pos,
        0,
        0,
    )
}

fn spans(bases: &[AlignmentNucleobase], matches: &[AlignmentMatch]) -> i64 {
    let p: i64 = bases.iter().map(|b| b.end_position - b.start_position).sum();
    let m: i64 = matches
        .iter()
        .filter(|m| m.marker_type != Marker::Pairing)
        .map(|m| m.end_position - m.start_position)
        .sum();
    p + m
}

#[test]
fn perfect_match_gives_one_run() {
    let r = read("GTACG", 102, vec![CigarOp::Match(5)]);
    let (bases, matches) = encode(&r, &window(), FROM, TO);
    assert!(bases.is_empty());
    assert_eq!(matches.len(), 1);
    assert_eq!(matches[0].marker_type, Marker::Match);
    assert_eq!(matches[0].start_position, 102);
    assert_eq!(matches[0].end_position, 107);
    assert_eq!(matches[0].read_start, 102);
    assert_eq!(matches[0].read_end, 107);
    assert_eq!(matches[0].flags, vec![0x1]);
    assert_eq!(matches[0].name, "r1");
}

#[test]
fn single_mismatch_splits_the_run() {
    let r = read("GTTCG", 102, vec![CigarOp::Match(5)]);
    let (bases, matches) = encode(&r, &window(), FROM, TO);
    assert_eq!(bases.len(), 1);
    assert_eq!(bases[0].marker_type, Marker::T);
    assert_eq!(bases[0].bases, vec!['T']);
    assert_eq!(bases[0].start_position, 104);
    assert_eq!(bases[0].end_position, 105);
    assert_eq!(matches.len(), 2);
    assert_eq!((matches[0].start_position, matches[0].end_position), (102, 104));
    assert_eq!((matches[1].start_position, matches[1].end_position), (105, 107));
}

#[test]
fn insertion_gives_one_mark_with_all_bases() {
    let r = read("GTAAAAC", 102, vec![CigarOp::Match(2), CigarOp::Ins(3), CigarOp::Match(2)]);
    let (bases, matches) = encode(&r, &window(), FROM, TO);
    assert_eq!(bases.len(), 1);
    assert_eq!(bases[0].marker_type, Marker::Insertion);
    assert_eq!(bases[0].bases, vec!['A', 'A', 'A']);
    assert_eq!(bases[0].start_position, 104);
    assert_eq!(matches.len(), 2);
    assert_eq!((matches[1].start_position, matches[1].end_position), (104, 106));
}

#[test]
fn insertion_kept_when_neighbours_are_filtered() {
    // Only coordinate 104 is in the window: the runs around it are cut.
    let r = read("GTAAAAC", 102, vec![CigarOp::Match(2), CigarOp::Ins(3), CigarOp::Match(2)]);
    let refs = reference_window(104, &b"A".to_vec());
    let (bases, _) = encode(&r, &refs, 104, 105);
    assert_eq!(bases.len(), 1);
    assert_eq!(bases[0].bases.len(), 3);
}

#[test]
fn deletion_gives_one_mark_per_base() {
    let r = read("GTGT", 102, vec![CigarOp::Match(2), CigarOp::Del(2), CigarOp::Match(2)]);
    let (bases, matches) = encode(&r, &window(), FROM, TO);
    assert_eq!(bases.len(), 2);
    for (i, b) in bases.iter().enumerate() {
        assert_eq!(b.marker_type, Marker::Deletion);
        assert!(b.bases.is_empty());
        assert_eq!(b.start_position, 104 + i as i64);
    }
    assert_eq!(matches.len(), 2);
    assert_eq!((matches[1].start_position, matches[1].end_position), (106, 108));
}

#[test]
fn mate_link_only_from_upstream_read() {
    let refs = reference_window(0, &vec![b'A'; 300]);
    let a = paired_read("AAAAAAAAAA", 100, 160);
    let b = paired_read("AAAAAAAAAA", 160, 100);
    let (_, ma) = encode(&a, &refs, 0, 300);
    let (_, mb) = encode(&b, &refs, 0, 300);
    let links_a: Vec<&AlignmentMatch> = ma.iter().filter(|m| m.marker_type == Marker::Pairing).collect();
    let links_b = mb.iter().filter(|m| m.marker_type == Marker::Pairing).count();
    assert_eq!(links_a.len(), 1);
    assert_eq!(links_a[0].start_position, 110);
    assert_eq!(links_a[0].end_position, 160);
    assert_eq!(links_a[0].read_start, 100);
    assert_eq!(links_a[0].read_end, 260);
    assert_eq!(links_b, 0);
    // The downstream read groups its marks from its mate's start.
    assert_eq!(mb[0].read_start, 100);
    assert_eq!(mb[0].read_end, 170);
    // The upstream read groups its marks up to the mate's start plus footprint.
    assert_eq!(ma[1].read_start, 100);
    assert_eq!(ma[1].read_end, 260);
}

#[test]
fn no_link_to_mate_on_other_reference() {
    let refs = reference_window(0, &vec![b'A'; 300]);
    let mut a = paired_read("AAAAAAAAAA", 100, 160);
    a.mate_tid = 1;
    let (_, ma) = encode(&a, &refs, 0, 300);
    assert_eq!(ma.iter().filter(|m| m.marker_type == Marker::Pairing).count(), 0);
}

#[test]
fn encoding_twice_gives_the_same_marks() {
    let r = read("GTTCGTAC", 102, vec![CigarOp::Match(3), CigarOp::Del(1), CigarOp::Match(5)]);
    let first = encode(&r, &window(), FROM, TO);
    let second = encode(&r, &window(), FROM, TO);
    assert_eq!(first, second);
}

#[test]
fn window_is_half_open() {
    let at_from = read("T", FROM as i32, vec![CigarOp::Match(1)]);
    let (bases, _) = encode(&at_from, &window(), FROM, TO);
    assert_eq!(bases.len(), 1);
    assert_eq!(bases[0].start_position, FROM as i64);
    let at_to = read("T", TO as i32, vec![CigarOp::Match(1)]);
    let (bases, matches) = encode(&at_to, &window(), FROM, TO);
    assert!(bases.is_empty());
    assert!(matches.is_empty());
}

#[test]
fn marks_cover_no_more_than_walked_reference() {
    let r = read("GTTCGTA", 102, vec![CigarOp::Match(3), CigarOp::Del(2), CigarOp::Match(4)]);
    let (bases, matches) = encode(&r, &window(), FROM, TO);
    assert!(spans(&bases, &matches) <= 9);
    // Part of the read lies past the window: fewer coordinates are covered.
    let late = read("ACGTACGT", 106, vec![CigarOp::Match(8)]);
    let (bases, matches) = encode(&late, &window(), FROM, TO);
    assert_eq!(spans(&bases, &matches), 4);
}

#[test]
fn unknown_base_is_marked_as_deletion() {
    let r = read("GXA", 102, vec![CigarOp::Match(3)]);
    let (bases, _) = encode(&r, &window(), FROM, TO);
    assert_eq!(bases.len(), 1);
    assert_eq!(bases[0].marker_type, Marker::Deletion);
    assert_eq!(bases[0].bases, vec!['X']);
}

#[test]
fn leading_soft_clip_compares_at_the_start() {
    // Both clipped bases are compared with the reference base at 102 ('G').
    let r = read("GGGT", 102, vec![CigarOp::SoftClip(2), CigarOp::Match(2)]);
    let (bases, matches) = encode(&r, &window(), FROM, TO);
    assert!(bases.is_empty());
    assert_eq!((matches[0].start_position, matches[0].end_position), (102, 104));
    // The Match operation starts at 102 too: the leading clip walked nothing.
    assert_eq!(matches[1].start_position, 102);
    assert_eq!(matches[1].end_position, 104);
}

#[test]
fn later_soft_clip_walks_the_reference() {
    let r = read("GTGGGT", 102, vec![CigarOp::SoftClip(0), CigarOp::Match(2), CigarOp::SoftClip(4)]);
    let (bases, matches) = encode(&r, &window(), FROM, TO);
    // Second clip covers 104..108 = "ACGT" against "GGGT".
    assert_eq!(bases.len(), 2);
    assert_eq!((bases[0].start_position, bases[0].marker_type), (104, Marker::G));
    assert_eq!((bases[1].start_position, bases[1].marker_type), (105, Marker::G));
    assert_eq!((matches[1].start_position, matches[1].end_position), (106, 108));
}

#[test]
fn skips_and_pads_move_nothing() {
    let r = read("GTAC", 102, vec![CigarOp::Match(2), CigarOp::RefSkip(5), CigarOp::Pad(1), CigarOp::Match(2)]);
    let (bases, matches) = encode(&r, &window(), FROM, TO);
    // The second Match starts where the first ended.
    assert!(bases.is_empty());
    assert_eq!((matches[1].start_position, matches[1].end_position), (104, 106));
}

#[test]
fn hard_clip_moves_the_query_cursor() {
    let r = read("XXGT", 102, vec![CigarOp::HardClip(2), CigarOp::Match(2)]);
    let (bases, matches) = encode(&r, &window(), FROM, TO);
    assert!(bases.is_empty());
    assert_eq!((matches[0].start_position, matches[0].end_position), (102, 104));
}

#[test]
fn reads_are_concatenated_in_order() {
    let a = read("GTTCG", 102, vec![CigarOp::Match(5)]);
    let b = read("AC", 100, vec![CigarOp::Match(2)]);
    let (bases, matches) = make_nucleobases(&window(), vec![a.clone(), b.clone()], FROM, TO);
    let (ba, ma) = encode(&a, &window(), FROM, TO);
    let (bb, mb) = encode(&b, &window(), FROM, TO);
    assert_eq!(bases, [ba, bb].concat());
    assert_eq!(matches, [ma, mb].concat());
    assert_eq!(matches.len(), 3);
}

#[test]
fn match_run_opens_extends_and_flushes() {
    let r = read("GTACG", 102, vec![CigarOp::Match(5)]);
    let mut run = MatchRun::closed();
    let mut out: Vec<AlignmentMatch> = Vec::new();
    run.flush(&r, r.read_span(), &mut out);
    assert!(out.is_empty());
    run.extend(40);
    run.extend(41);
    run.extend(42);
    assert_eq!((run.start, run.count), (40, 3));
    run.flush(&r, r.read_span(), &mut out);
    assert_eq!((run.start, run.count), (0, 0));
    assert_eq!(out.len(), 1);
    assert_eq!((out[0].start_position, out[0].end_position), (40, 43));
    assert_eq!(out[0].marker_type, Marker::Match);
}

#[test]
fn mismatch_markers_by_base() {
    assert_eq!(base_marker('A'), Marker::A);
    assert_eq!(base_marker('T'), Marker::T);
    assert_eq!(base_marker('C'), Marker::C);
    assert_eq!(base_marker('G'), Marker::G);
    assert_eq!(base_marker('N'), Marker::N);
    assert_eq!(base_marker('a'), Marker::Deletion);
    assert_eq!(CigarOp::Del(7).len(), 7);
}

#[test]
fn mate_link_outside_the_window_is_dropped() {
    let a = paired_read("AAAA", 8, 50);
    let refs = reference_window(0, &vec![b'A'; 10]);
    let (_, matches) = encode(&a, &refs, 0, 10);
    assert_eq!(matches.iter().filter(|m| m.marker_type == Marker::Pairing).count(), 0);
    assert_eq!(matches.len(), 1);
    assert_eq!((matches[0].start_position, matches[0].end_position), (8, 10));
    // The same read over a window holding its end keeps the link.
    let refs = reference_window(0, &vec![b'A'; 13]);
    let (_, matches) = encode(&a, &refs, 0, 13);
    assert_eq!(matches[0].marker_type, Marker::Pairing);
    assert_eq!((matches[0].start_position, matches[0].end_position), (12, 50));
}

#[test]
fn marks_on_the_reference_are_disjoint() {
    let r = read("GTAAAAC", 102, vec![CigarOp::Match(2), CigarOp::Ins(3), CigarOp::Match(2), CigarOp::Del(1)]);
    let (bases, matches) = encode(&r, &window(), FROM, TO);
    let mut spans: Vec<(i64, i64)> = bases
        .iter()
        .filter(|b| b.marker_type != Marker::Insertion)
        .map(|b| (b.start_position, b.end_position))
        .chain(matches.iter().map(|m| (m.start_position, m.end_position)))
        .collect();
    spans.sort();
    assert_eq!(spans, vec![(102, 104), (104, 106), (106, 107)]);
    for pair in spans.windows(2) {
        assert!(pair[0].1 <= pair[1].0);
    }
}
