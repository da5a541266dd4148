use vstd::prelude::*;
use crate::alignment::{Alignment, CigarOp, Cursor, Marker, MATE_FOOTPRINT, cursor, lemma_cursor_bounded, lemma_total_monotone};
use crate::reference::Nucleobase;

verus! {

// Coordinates of marks are stored shifted up by one half: a mark drawn over
// `[x - 0.5, y - 0.5)` holds `start_position == x` and `end_position == y`.

/// A mark for one mismatching base, one inserted run or one deleted base.
#[derive(Clone, Debug, PartialEq)]
pub struct AlignmentNucleobase {
    pub marker_type: Marker,
    pub bases: Vec<char>,
    pub start_position: i64,
    pub end_position: i64,
    pub flags: Vec<u16>,
    pub name: String,
    pub read_start: i64,
    pub read_end: i64,
}

/// A mark for one run of matching bases or for the gap between two mates.
#[derive(Clone, Debug, PartialEq)]
pub struct AlignmentMatch {
    pub marker_type: Marker,
    pub start_position: i64,
    pub end_position: i64,
    pub flags: Vec<u16>,
    pub name: String,
    pub read_start: i64,
    pub read_end: i64,
}

/// The value of an `AlignmentNucleobase`.
pub struct PointMark {
    pub marker: Marker,
    pub bases: Seq<char>,
    pub start: int,
    pub end: int,
    pub flags: Seq<u16>,
    pub name: Seq<char>,
    pub read_start: int,
    pub read_end: int,
}

/// The value of an `AlignmentMatch`.
pub struct RunMark {
    pub marker: Marker,
    pub start: int,
    pub end: int,
    pub flags: Seq<u16>,
    pub name: Seq<char>,
    pub read_start: int,
    pub read_end: int,
}

impl View for AlignmentNucleobase {
    type V = PointMark;

    open spec fn view(&self) -> PointMark {
        PointMark {
            marker: self.marker_type,
            bases: self.bases@,
            start: self.start_position as int,
            end: self.end_position as int,
            flags: self.flags@,
            name: self.name@,
            read_start: self.read_start as int,
            read_end: self.read_end as int,
        }
    }
}

impl View for AlignmentMatch {
    type V = RunMark;

    open spec fn view(&self) -> RunMark {
        RunMark {
            marker: self.marker_type,
            start: self.start_position as int,
            end: self.end_position as int,
            flags: self.flags@,
            name: self.name@,
            read_start: self.read_start as int,
            read_end: self.read_end as int,
        }
    }
}

pub open spec fn point_marks(v: Seq<AlignmentNucleobase>) -> Seq<PointMark> {
    v.map_values(|p: AlignmentNucleobase| p@)
}

pub open spec fn run_marks(v: Seq<AlignmentMatch>) -> Seq<RunMark> {
    v.map_values(|m: AlignmentMatch| m@)
}

/// The reference bases of the queried window `[from, to)`; `reference[i]` is
/// the base at coordinate `from + i`.
pub struct Window {
    pub reference: Seq<char>,
    pub from: int,
    pub to: int,
}

impl Window {
    pub open spec fn contains(self, c: int) -> bool {
        self.from <= c < self.to
    }

    pub open spec fn base_at(self, c: int) -> char {
        self.reference[c - self.from]
    }
}

pub open spec fn window_of(refs: Seq<Nucleobase>, from: u32, to: u32) -> Window {
    Window { reference: refs.map_values(|n: Nucleobase| n.marker_type), from: from as int, to: to as int }
}

/// The marker of a mismatching base: its identity, or `Deletion` for a
/// character that is not one of A, T, C, G, N.
pub open spec fn marker_of(b: char) -> Marker {
    if b == 'A' {
        Marker::A
    } else if b == 'T' {
        Marker::T
    } else if b == 'C' {
        Marker::C
    } else if b == 'G' {
        Marker::G
    } else if b == 'N' {
        Marker::N
    } else {
        Marker::Deletion
    }
}

/// A point mark of `read` centred on coordinate `at`.
pub open spec fn point(read: Alignment, marker: Marker, bases: Seq<char>, at: int) -> PointMark {
    PointMark {
        marker,
        bases,
        start: at,
        end: at + 1,
        flags: read.flags@,
        name: read.name@,
        read_start: read.span_start(),
        read_end: read.span_end(),
    }
}

/// A run of matching bases of `read` covering coordinates `start .. end`.
pub open spec fn run(read: Alignment, start: int, end: int) -> RunMark {
    RunMark {
        marker: Marker::Match,
        start,
        end,
        flags: read.flags@,
        name: read.name@,
        read_start: read.span_start(),
        read_end: read.span_end(),
    }
}

/// Whether the read is paired, on its mate's reference, and ends strictly
/// before its mate begins.
pub open spec fn links_to_mate(read: Alignment) -> bool {
    read.paired && read.tid == read.mate_tid && read.pos + read.length < read.mate_pos
}

/// The link over the gap between a read and its downstream mate, kept only
/// when it starts inside the window, like every other mark.
pub open spec fn pairing(read: Alignment, w: Window) -> Seq<RunMark> {
    if links_to_mate(read) && w.contains(read.pos + read.length) {
        seq![
            RunMark {
                marker: Marker::Pairing,
                start: read.pos + read.length,
                end: read.mate_pos as int,
                flags: read.flags@,
                name: read.name@,
                read_start: read.pos as int,
                read_end: read.mate_pos + MATE_FOOTPRINT,
            },
        ]
    } else {
        seq![]
    }
}

/// State of a compare-and-emit scan: the marks emitted so far and the open
/// run of matching bases (`count == 0` when no run is open).
pub struct Scan {
    pub points: Seq<PointMark>,
    pub runs: Seq<RunMark>,
    pub start: int,
    pub count: int,
}

/// The mark list for a run state: one run mark if a run is open.
pub open spec fn flush(read: Alignment, start: int, count: int) -> Seq<RunMark> {
    if count > 0 {
        seq![run(read, start, start + count)]
    } else {
        seq![]
    }
}

/// Coordinate compared for base `j` of a scan starting at `c0`.
pub open spec fn scan_coord(c0: int, advance: bool, j: int) -> int {
    if advance {
        c0 + j
    } else {
        c0
    }
}

/// One base of a scan: inside the window it extends the open run when it
/// equals the reference base, and otherwise closes the run and is emitted as
/// a point mark; outside the window it is skipped.
pub open spec fn scan_step(
    read: Alignment,
    w: Window,
    q0: int,
    c0: int,
    advance: bool,
    st: Scan,
    j: int,
) -> Scan {
    let c = scan_coord(c0, advance, j);
    if w.contains(c) {
        let b = read.sequence@[q0 + j];
        if b == w.base_at(c) {
            if st.count == 0 {
                Scan { points: st.points, runs: st.runs, start: c, count: 1 }
            } else {
                Scan { points: st.points, runs: st.runs, start: st.start, count: st.count + 1 }
            }
        } else {
            Scan {
                points: st.points.push(point(read, marker_of(b), seq![b], c)),
                runs: st.runs + flush(read, st.start, st.count),
                start: 0,
                count: 0,
            }
        }
    } else {
        st
    }
}

/// The scan state after the first `k` bases.
pub open spec fn scan(read: Alignment, w: Window, q0: int, c0: int, advance: bool, k: nat) -> Scan
    decreases k,
{
    if k == 0 {
        Scan { points: seq![], runs: seq![], start: 0, count: 0 }
    } else {
        scan_step(read, w, q0, c0, advance, scan(read, w, q0, c0, advance, (k - 1) as nat), k - 1)
    }
}

/// The marks of a scan over `n` bases, the last open run closed.
pub open spec fn scanned(read: Alignment, w: Window, q0: int, c0: int, advance: bool, n: nat) -> (
    Seq<PointMark>,
    Seq<RunMark>,
) {
    let st = scan(read, w, q0, c0, advance, n);
    (st.points, st.runs + flush(read, st.start, st.count))
}

/// One `Deletion` mark for each of the first `k` deleted coordinates from
/// `c0` on that lies in `[from, to)`.
pub open spec fn deletions(read: Alignment, from: int, to: int, c0: int, k: nat) -> Seq<PointMark>
    decreases k,
{
    if k == 0 {
        seq![]
    } else {
        let c = c0 + k - 1;
        let before = deletions(read, from, to, c0, (k - 1) as nat);
        if from <= c < to {
            before.push(point(read, Marker::Deletion, seq![], c))
        } else {
            before
        }
    }
}

/// The marks that one operation produces when the walk reaches it with
/// cursor `cur`.
pub open spec fn op_marks(read: Alignment, w: Window, op: CigarOp, cur: Cursor) -> (
    Seq<PointMark>,
    Seq<RunMark>,
) {
    let c = read.pos + cur.r;
    match op {
        CigarOp::Match(n) => scanned(read, w, cur.q, c, true, n as nat),
        CigarOp::SoftClip(n) => scanned(read, w, cur.q, c, cur.clipped, n as nat),
        CigarOp::Ins(n) => (
            if w.contains(c) {
                seq![point(read, Marker::Insertion, read.sequence@.subrange(cur.q, cur.q + n), c)]
            } else {
                seq![]
            },
            seq![],
        ),
        CigarOp::Del(n) => (deletions(read, w.from, w.to, c, n as nat), seq![]),
        _ => (seq![], seq![]),
    }
}

/// The marks of the first `k` operations of the read, in order.
pub open spec fn walk(read: Alignment, w: Window, k: nat) -> (Seq<PointMark>, Seq<RunMark>)
    decreases k,
{
    if k == 0 {
        (seq![], seq![])
    } else {
        let before = walk(read, w, (k - 1) as nat);
        let here = op_marks(read, w, read.cigar@[k - 1], cursor(read.cigar@, (k - 1) as nat));
        (before.0 + here.0, before.1 + here.1)
    }
}

/// What encoding a read against a window yields: its point marks, and its
/// mate link (if any, and if it starts inside the window) followed by its
/// runs of matching bases.
pub open spec fn encoded(read: Alignment, w: Window) -> (Seq<PointMark>, Seq<RunMark>) {
    let all = walk(read, w, read.cigar@.len());
    (all.0, pairing(read, w) + all.1)
}


/// Bound on the magnitude of every coordinate a walk computes.
pub const COORD_BOUND: i64 = 0x1_0000_0000_0000;

proof fn lemma_point_marks_push(v: Seq<AlignmentNucleobase>, p: AlignmentNucleobase)
    ensures
        point_marks(v.push(p)) == point_marks(v).push(p@),
{
    assert(point_marks(v.push(p)) =~= point_marks(v).push(p@));
}

proof fn lemma_run_marks_push(v: Seq<AlignmentMatch>, m: AlignmentMatch)
    ensures
        run_marks(v.push(m)) == run_marks(v).push(m@),
{
    assert(run_marks(v.push(m)) =~= run_marks(v).push(m@));
}

fn copy_flags(flags: &Vec<u16>) -> (r: Vec<u16>)
    ensures
        r@ == flags@,
{
    let mut r: Vec<u16> = Vec::new();
    let mut i: usize = 0;
    while i < flags.len()
        invariant
            i <= flags@.len(),
            r@ == flags@.take(i as int),
        decreases flags@.len() - i,
    {
        r.push(flags[i]);
        proof {
            assert(flags@.take(i + 1) =~= flags@.take(i as int).push(flags@[i as int]));
        }
        i += 1;
    }
    proof {
        assert(flags@.take(flags@.len() as int) =~= flags@);
    }
    r
}

fn copy_bases(s: &Vec<char>, lo: usize, hi: usize) -> (r: Vec<char>)
    requires
        lo <= hi <= s@.len(),
    ensures
        r@ == s@.subrange(lo as int, hi as int),
{
    let mut r: Vec<char> = Vec::new();
    let mut i: usize = lo;
    while i < hi
        invariant
            lo <= i <= hi,
            hi <= s@.len(),
            r@ == s@.subrange(lo as int, i as int),
        decreases hi - i,
    {
        r.push(s[i]);
        proof {
            assert(s@.subrange(lo as int, i + 1) =~= s@.subrange(lo as int, i as int).push(s@[i as int]));
        }
        i += 1;
    }
    r
}

/// The marker of a mismatching base.
pub fn base_marker(b: char) -> (m: Marker)
    ensures
        m == marker_of(b),
{
    match b {
        'A' => Marker::A,
        'T' => Marker::T,
        'C' => Marker::C,
        'G' => Marker::G,
        'N' => Marker::N,
        _ => Marker::Deletion,
    }
}

/// Appends a point mark of `read` centred on `at`.
fn emit_point(
    read: &Alignment,
    span: (i64, i64),
    marker: Marker,
    b: Vec<char>,
    at: i64,
    bases: &mut Vec<AlignmentNucleobase>,
)
    requires
        span.0 == read.span_start(),
        span.1 == read.span_end(),
        at < i64::MAX,
    ensures
        point_marks(final(bases)@) == point_marks(old(bases)@).push(point(*read, marker, b@, at as int)),
{
    let p = AlignmentNucleobase {
        marker_type: marker,
        bases: b,
        start_position: at,
        end_position: at + 1,
        flags: copy_flags(&read.flags),
        name: read.name.clone(),
        read_start: span.0,
        read_end: span.1,
    };
    proof {
        lemma_point_marks_push(bases@, p);
    }
    bases.push(p);
}

/// The open run of matching bases of a scan; `count == 0` when none is open.
pub struct MatchRun {
    pub start: i64,
    pub count: i64,
}

impl MatchRun {
    pub fn closed() -> (r: MatchRun)
        ensures
            r.start == 0,
            r.count == 0,
    {
        MatchRun { start: 0, count: 0 }
    }

    /// Adds the matching base at coordinate `c`, opening a run there if none
    /// is open.
    pub fn extend(&mut self, c: i64)
        requires
            old(self).count < i64::MAX,
        ensures
            old(self).count == 0 ==> final(self).start == c && final(self).count == 1,
            old(self).count != 0 ==> final(self).start == old(self).start && final(self).count
                == old(self).count + 1,
    {
        if self.count == 0 {
            self.start = c;
            self.count = 1;
        } else {
            self.count = self.count + 1;
        }
    }

    /// Closes the run, appending its mark when one is open.
    pub fn flush(&mut self, read: &Alignment, span: (i64, i64), matches: &mut Vec<AlignmentMatch>)
        requires
            span.0 == read.span_start(),
            span.1 == read.span_end(),
            old(self).count >= 0,
            old(self).count > 0 ==> old(self).start + old(self).count <= i64::MAX,
        ensures
            final(self).start == 0,
            final(self).count == 0,
            run_marks(final(matches)@) == run_marks(old(matches)@) + flush(
                *read,
                old(self).start as int,
                old(self).count as int,
            ),
    {
        if self.count > 0 {
            let m = AlignmentMatch {
                marker_type: Marker::Match,
                start_position: self.start,
                end_position: self.start + self.count,
                flags: copy_flags(&read.flags),
                name: read.name.clone(),
                read_start: span.0,
                read_end: span.1,
            };
            proof {
                lemma_run_marks_push(matches@, m);
            }
            matches.push(m);
            proof {
                assert(run_marks(matches@) =~= run_marks(old(matches)@) + flush(
                    *read,
                    old(self).start as int,
                    old(self).count as int,
                ));
            }
        } else {
            proof {
                assert(run_marks(matches@) =~= run_marks(old(matches)@) + flush(
                    *read,
                    old(self).start as int,
                    old(self).count as int,
                ));
            }
        }
        self.start = 0;
        self.count = 0;
    }
}

/// Compares `n` bases of the read from sequence index `q0` with the
/// reference, from coordinate `c0` on (the coordinate moves with each base
/// only when `advance` holds), and appends the marks: matching runs and
/// mismatching bases.
fn compare_and_emit(
    read: &Alignment,
    span: (i64, i64),
    ref_bases: &Vec<Nucleobase>,
    from: u32,
    to: u32,
    q0: usize,
    c0: i64,
    n: u32,
    advance: bool,
    bases: &mut Vec<AlignmentNucleobase>,
    matches: &mut Vec<AlignmentMatch>,
)
    requires
        q0 + n <= read.sequence@.len(),
        span.0 == read.span_start(),
        span.1 == read.span_end(),
        from <= to,
        to - from <= ref_bases@.len(),
        -COORD_BOUND <= c0 <= COORD_BOUND,
    ensures
        ({
            let out = scanned(*read, window_of(ref_bases@, from, to), q0 as int, c0 as int, advance, n as nat);
            &&& point_marks(final(bases)@) == point_marks(old(bases)@) + out.0
            &&& run_marks(final(matches)@) == run_marks(old(matches)@) + out.1
        }),
{
    let ghost w = window_of(ref_bases@, from, to);
    let ghost b0 = bases@;
    let ghost m0 = matches@;
    let mut run = MatchRun::closed();
    let mut j: u32 = 0;
    while j < n
        invariant
            j <= n,
            q0 + n <= read.sequence@.len(),
            span.0 == read.span_start(),
            span.1 == read.span_end(),
            from <= to,
            to - from <= ref_bases@.len(),
            -COORD_BOUND <= c0 <= COORD_BOUND,
            w == window_of(ref_bases@, from, to),
            ({
                let st = scan(*read, w, q0 as int, c0 as int, advance, j as nat);
                &&& point_marks(bases@) == point_marks(b0) + st.points
                &&& run_marks(matches@) == run_marks(m0) + st.runs
                &&& run.start == st.start
                &&& run.count == st.count
            }),
            0 <= run.count <= j,
            run.count > 0 ==> c0 <= run.start <= c0 + j,
        decreases n - j,
    {
        let ghost st = scan(*read, w, q0 as int, c0 as int, advance, j as nat);
        let c: i64 = if advance {
            c0 + j as i64
        } else {
            c0
        };
        if from as i64 <= c && c < to as i64 {
            let jj: usize = j as usize;
            let seq_len: usize = read.sequence.len();
            assert(q0 + jj < seq_len);
            let b = read.sequence[q0 + jj];
            let rb = ref_bases[(c - from as i64) as usize].get_marker_type();
            assert(rb == w.base_at(c as int));
            if b == rb {
                run.extend(c);
            } else {
                run.flush(read, span, matches);
                let mut text: Vec<char> = Vec::new();
                text.push(b);
                assert(text@ =~= seq![b]);
                emit_point(read, span, base_marker(b), text, c, bases);
                proof {
                    assert(point_marks(bases@) =~= point_marks(b0) + st.points.push(
                        point(*read, marker_of(b), seq![b], c as int),
                    ));
                    assert(run_marks(matches@) =~= run_marks(m0) + (st.runs + flush(
                        *read,
                        st.start,
                        st.count,
                    )));
                }
            }
        }
        j += 1;
    }
    let ghost st = scan(*read, w, q0 as int, c0 as int, advance, n as nat);
    run.flush(read, span, matches);
    proof {
        assert(run_marks(matches@) =~= run_marks(m0) + (st.runs + flush(*read, st.start, st.count)));
    }
}


/// Appends a `Deletion` mark for each of the `n` deleted coordinates from
/// `c0` on that lies in `[from, to)`.
fn emit_deletions(
    read: &Alignment,
    span: (i64, i64),
    from: u32,
    to: u32,
    c0: i64,
    n: u32,
    bases: &mut Vec<AlignmentNucleobase>,
)
    requires
        span.0 == read.span_start(),
        span.1 == read.span_end(),
        -COORD_BOUND <= c0 <= COORD_BOUND,
    ensures
        point_marks(final(bases)@) == point_marks(old(bases)@) + deletions(
            *read,
            from as int,
            to as int,
            c0 as int,
            n as nat,
        ),
{
    let ghost b0 = bases@;
    let mut j: u32 = 0;
    while j < n
        invariant
            j <= n,
            span.0 == read.span_start(),
            span.1 == read.span_end(),
            -COORD_BOUND <= c0 <= COORD_BOUND,
            point_marks(bases@) == point_marks(b0) + deletions(
                *read,
                from as int,
                to as int,
                c0 as int,
                j as nat,
            ),
        decreases n - j,
    {
        let c: i64 = c0 + j as i64;
        if from as i64 <= c && c < to as i64 {
            emit_point(read, span, Marker::Deletion, Vec::new(), c, bases);
            proof {
                assert(point_marks(bases@) =~= point_marks(b0) + deletions(
                    *read,
                    from as int,
                    to as int,
                    c0 as int,
                    (j + 1) as nat,
                ));
            }
        }
        j += 1;
    }
}

proof fn lemma_concat_assoc<T>(a: Seq<T>, b: Seq<T>, c: Seq<T>)
    ensures
        a + b + c == a + (b + c),
{
    assert(a + b + c =~= a + (b + c));
}

/// Appends the marks of one read against the reference window of
/// `[from, to)`: its mate link, if any, to `matches`, then the marks of its
/// operations in order.
pub fn encode_read(
    read: &Alignment,
    ref_bases: &Vec<Nucleobase>,
    from: u32,
    to: u32,
    bases: &mut Vec<AlignmentNucleobase>,
    matches: &mut Vec<AlignmentMatch>,
)
    requires
        read.well_formed(),
        from <= to,
        to - from <= ref_bases@.len(),
    ensures
        ({
            let out = encoded(*read, window_of(ref_bases@, from, to));
            &&& point_marks(final(bases)@) == point_marks(old(bases)@) + out.0
            &&& run_marks(final(matches)@) == run_marks(old(matches)@) + out.1
        }),
{
    let ghost w = window_of(ref_bases@, from, to);
    let ghost ops = read.cigar@;
    let ghost b0 = bases@;
    let ghost m0 = matches@;
    let span = read.read_span();
    let read_end: i64 = read.pos as i64 + read.length as i64;
    if read.paired && read.tid == read.mate_tid && read_end < read.mate_pos as i64 && from as i64
        <= read_end && read_end < to as i64 {
        let link = AlignmentMatch {
            marker_type: Marker::Pairing,
            start_position: read.pos as i64 + read.length as i64,
            end_position: read.mate_pos as i64,
            flags: copy_flags(&read.flags),
            name: read.name.clone(),
            read_start: read.pos as i64,
            read_end: read.mate_pos as i64 + MATE_FOOTPRINT,
        };
        proof {
            lemma_run_marks_push(matches@, link);
        }
        matches.push(link);
    }
    assert(run_marks(matches@) =~= run_marks(m0) + pairing(*read, w));
    let ghost m1 = matches@;
    let ops_len: usize = read.cigar.len();
    proof {
        lemma_total_monotone(ops, 0, ops.len());
    }
    let mut q: u64 = 0;
    let mut r: i64 = 0;
    let mut clipped: bool = false;
    let mut k: usize = 0;
    while k < ops_len
        invariant
            k <= ops_len,
            ops_len == ops.len(),
            ops == read.cigar@,
            read.well_formed(),
            from <= to,
            to - from <= ref_bases@.len(),
            span.0 == read.span_start(),
            span.1 == read.span_end(),
            w == window_of(ref_bases@, from, to),
            q == cursor(ops, k as nat).q,
            r == cursor(ops, k as nat).r,
            clipped == cursor(ops, k as nat).clipped,
            point_marks(bases@) == point_marks(b0) + walk(*read, w, k as nat).0,
            run_marks(matches@) == run_marks(m1) + walk(*read, w, k as nat).1,
        decreases ops_len - k,
    {
        proof {
            lemma_cursor_bounded(ops, k as nat);
            lemma_cursor_bounded(ops, (k + 1) as nat);
            lemma_total_monotone(ops, (k + 1) as nat, ops.len());
        }
        let ghost bk = bases@;
        let ghost mk = matches@;
        let ghost cur = cursor(ops, k as nat);
        let op = read.cigar[k];
        let c: i64 = read.pos as i64 + r;
        let seq_len: usize = read.sequence.len();
        match op {
            CigarOp::Match(n) => {
                assert(ops[k as int].reads_bases());
                compare_and_emit(read, span, ref_bases, from, to, q as usize, c, n, true, bases, matches);
                q = q + n as u64;
                r = r + n as i64;
            },
            CigarOp::SoftClip(n) => {
                assert(ops[k as int].reads_bases());
                compare_and_emit(read, span, ref_bases, from, to, q as usize, c, n, clipped, bases, matches);
                q = q + n as u64;
                if clipped {
                    r = r + n as i64;
                }
                clipped = true;
            },
            CigarOp::Ins(n) => {
                assert(ops[k as int].reads_bases());
                if from as i64 <= c && c < to as i64 {
                    let text = copy_bases(&read.sequence, q as usize, q as usize + n as usize);
                    emit_point(read, span, Marker::Insertion, text, c, bases);
                    assert(point_marks(bases@) =~= point_marks(bk) + op_marks(*read, w, op, cur).0);
                } else {
                    assert(point_marks(bases@) =~= point_marks(bk) + op_marks(*read, w, op, cur).0);
                }
                q = q + n as u64;
            },
            CigarOp::Del(n) => {
                emit_deletions(read, span, from, to, c, n, bases);
                r = r + n as i64;
            },
            CigarOp::HardClip(n) => {
                q = q + n as u64;
            },
            _ => {},
        }
        proof {
            let here = op_marks(*read, w, op, cur);
            if !(op is Match || op is SoftClip || op is Ins || op is Del) {
                assert(point_marks(bases@) =~= point_marks(bk) + here.0);
            }
            if !(op is Match || op is SoftClip) {
                assert(run_marks(matches@) =~= run_marks(mk) + here.1);
            }
            lemma_concat_assoc(point_marks(b0), walk(*read, w, k as nat).0, here.0);
            lemma_concat_assoc(run_marks(m1), walk(*read, w, k as nat).1, here.1);
        }
        k += 1;
    }
    proof {
        lemma_concat_assoc(run_marks(m0), pairing(*read, w), walk(*read, w, ops.len()).1);
    }
}

/// Encodes one read against the reference window of `[from, to)`: its point
/// marks, and its mate link (if any) followed by its runs of matching bases.
pub fn encode(read: &Alignment, ref_bases: &Vec<Nucleobase>, from: u32, to: u32) -> (r: (
    Vec<AlignmentNucleobase>,
    Vec<AlignmentMatch>,
))
    requires
        read.well_formed(),
        from <= to,
        to - from <= ref_bases@.len(),
    ensures
        point_marks(r.0@) == encoded(*read, window_of(ref_bases@, from, to)).0,
        run_marks(r.1@) == encoded(*read, window_of(ref_bases@, from, to)).1,
{
    let mut bases: Vec<AlignmentNucleobase> = Vec::new();
    let mut matches: Vec<AlignmentMatch> = Vec::new();
    encode_read(read, ref_bases, from, to, &mut bases, &mut matches);
    assert(point_marks(seq![]) =~= Seq::<PointMark>::empty());
    assert(run_marks(seq![]) =~= Seq::<RunMark>::empty());
    assert(point_marks(bases@) =~= encoded(*read, window_of(ref_bases@, from, to)).0);
    assert(run_marks(matches@) =~= encoded(*read, window_of(ref_bases@, from, to)).1);
    (bases, matches)
}


/// The marks of the first `k` reads, each read's marks after those of the
/// reads before it.
pub open spec fn encoded_all(reads: Seq<Alignment>, w: Window, k: nat) -> (Seq<PointMark>, Seq<RunMark>)
    decreases k,
{
    if k == 0 {
        (seq![], seq![])
    } else {
        let before = encoded_all(reads, w, (k - 1) as nat);
        let here = encoded(reads[k - 1], w);
        (before.0 + here.0, before.1 + here.1)
    }
}

/// Encodes every read against the reference window of `[from, to)` and
/// concatenates the results in read order.
pub fn make_nucleobases(ref_bases: &Vec<Nucleobase>, snippets: Vec<Alignment>, from: u32, to: u32) -> (r: (
    Vec<AlignmentNucleobase>,
    Vec<AlignmentMatch>,
))
    requires
        forall|i: int| 0 <= i < snippets@.len() ==> (#[trigger] snippets@[i]).well_formed(),
        from <= to,
        to - from <= ref_bases@.len(),
    ensures
        point_marks(r.0@) == encoded_all(snippets@, window_of(ref_bases@, from, to), snippets@.len()).0,
        run_marks(r.1@) == encoded_all(snippets@, window_of(ref_bases@, from, to), snippets@.len()).1,
{
    let ghost w = window_of(ref_bases@, from, to);
    let mut bases: Vec<AlignmentNucleobase> = Vec::new();
    let mut matches: Vec<AlignmentMatch> = Vec::new();
    assert(point_marks(bases@) =~= Seq::<PointMark>::empty());
    assert(run_marks(matches@) =~= Seq::<RunMark>::empty());
    let mut i: usize = 0;
    while i < snippets.len()
        invariant
            i <= snippets@.len(),
            forall|j: int| 0 <= j < snippets@.len() ==> (#[trigger] snippets@[j]).well_formed(),
            from <= to,
            to - from <= ref_bases@.len(),
            w == window_of(ref_bases@, from, to),
            point_marks(bases@) == encoded_all(snippets@, w, i as nat).0,
            run_marks(matches@) == encoded_all(snippets@, w, i as nat).1,
        decreases snippets@.len() - i,
    {
        encode_read(&snippets[i], ref_bases, from, to, &mut bases, &mut matches);
        i += 1;
    }
    (bases, matches)
}

} // verus!
