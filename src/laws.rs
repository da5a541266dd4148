use vstd::prelude::*;
use crate::alignment::{Alignment, CigarOp, Cursor, Marker, MATE_FOOTPRINT, advance, cursor};
use crate::encode::{
    PointMark, RunMark, Scan, Window, deletions, encoded, flush, marker_of, op_marks, pairing,
    point, run, scan, scan_coord, walk,
};

verus! {

/// Base `j` of a scan from sequence index `q0` and coordinate `c0` lies in
/// the window and equals the reference base there.
pub open spec fn agrees(read: Alignment, w: Window, q0: int, c0: int, j: int) -> bool {
    w.contains(c0 + j) && read.sequence@[q0 + j] == w.base_at(c0 + j)
}

/// The run length of a scan is never negative.
proof fn lemma_scan_count(read: Alignment, w: Window, q0: int, c0: int, adv: bool, k: nat)
    ensures
        scan(read, w, q0, c0, adv, k).count >= 0,
    decreases k,
{
    if k > 0 {
        lemma_scan_count(read, w, q0, c0, adv, (k - 1) as nat);
    }
}

/// Scanning bases that all lie in the window and all equal the reference
/// emits nothing new and only grows the open run.
pub proof fn lemma_scan_matching(read: Alignment, w: Window, q0: int, c0: int, j0: nat, k: nat)
    requires
        j0 <= k,
        forall|j: int| j0 <= j < k ==> #[trigger] agrees(read, w, q0, c0, j),
    ensures
        ({
            let a = scan(read, w, q0, c0, true, j0);
            let b = scan(read, w, q0, c0, true, k);
            &&& b.points == a.points
            &&& b.runs == a.runs
            &&& k > j0 ==> b.count == a.count + (k - j0)
            &&& k > j0 ==> b.start == if a.count == 0 {
                c0 + j0
            } else {
                a.start
            }
            &&& k == j0 ==> b == a
        }),
    decreases k,
{
    if k > j0 {
        lemma_scan_matching(read, w, q0, c0, j0, (k - 1) as nat);
        assert(agrees(read, w, q0, c0, k - 1));
        lemma_scan_count(read, w, q0, c0, true, j0);
    }
}

/// The marks of a walk over a single operation.
proof fn lemma_walk_one(read: Alignment, w: Window)
    requires
        read.cigar@.len() == 1,
    ensures
        walk(read, w, 1) == op_marks(read, w, read.cigar@[0], Cursor { q: 0, r: 0, clipped: false }),
{
    let here = op_marks(read, w, read.cigar@[0], cursor(read.cigar@, 0));
    assert(walk(read, w, 0).0 + here.0 =~= here.0);
    assert(walk(read, w, 0).1 + here.1 =~= here.1);
}

/// A read whose single Match operation agrees with the reference at every
/// base, over a window that covers it, yields no point mark and exactly one
/// Match run spanning the whole read (besides a mate link, which a read
/// without a downstream mate does not have).
pub proof fn lemma_perfect_match(read: Alignment, w: Window, n: u32)
    requires
        n > 0,
        read.cigar@ == seq![CigarOp::Match(n)],
        n <= read.sequence@.len(),
        forall|j: int|
            0 <= j < n ==> w.contains(read.pos + j) && #[trigger] read.sequence@[j] == w.base_at(
                read.pos + j,
            ),
        pairing(read, w) == Seq::<RunMark>::empty(),
    ensures
        encoded(read, w).0 == Seq::<PointMark>::empty(),
        encoded(read, w).1 == seq![run(read, read.pos as int, read.pos + n)],
{
    lemma_walk_one(read, w);
    assert forall|j: int| 0 <= j < n implies #[trigger] agrees(read, w, 0, read.pos as int, j) by {
        assert(read.sequence@[j] == w.base_at(read.pos + j));
    }
    lemma_scan_matching(read, w, 0, read.pos as int, 0, n as nat);
    let st = scan(read, w, 0, read.pos as int, true, n as nat);
    assert(st.runs + flush(read, st.start, st.count) =~= seq![run(read, read.pos as int, read.pos + n)]);
    assert(pairing(read, w) + walk(read, w, 1).1 =~= walk(read, w, 1).1);
}

/// One mismatching base strictly inside an otherwise matching Match
/// operation, over a window that covers the read, yields exactly one point
/// mark (the mismatch) and exactly two Match runs, before and after it.
pub proof fn lemma_single_mismatch(read: Alignment, w: Window, n: u32, m: int)
    requires
        0 < m < n - 1,
        read.cigar@ == seq![CigarOp::Match(n)],
        n <= read.sequence@.len(),
        w.from <= read.pos,
        read.pos + n <= w.to,
        forall|j: int|
            0 <= j < n && j != m ==> #[trigger] read.sequence@[j] == w.base_at(read.pos + j),
        read.sequence@[m] != w.base_at(read.pos + m),
        pairing(read, w) == Seq::<RunMark>::empty(),
    ensures
        encoded(read, w).0 == seq![
            point(read, marker_of(read.sequence@[m]), seq![read.sequence@[m]], read.pos + m),
        ],
        encoded(read, w).1 == seq![
            run(read, read.pos as int, read.pos + m),
            run(read, read.pos + m + 1, read.pos + n),
        ],
{
    let p = read.pos as int;
    lemma_walk_one(read, w);
    assert forall|j: int| 0 <= j < m implies #[trigger] agrees(read, w, 0, p, j) by {
        assert(read.sequence@[j] == w.base_at(p + j));
    }
    lemma_scan_matching(read, w, 0, p, 0, m as nat);
    assert(w.contains(p + m));
    let sm1 = scan(read, w, 0, p, true, (m + 1) as nat);
    assert(sm1.points =~= seq![point(read, marker_of(read.sequence@[m]), seq![read.sequence@[m]], p + m)]);
    assert(sm1.runs =~= seq![run(read, p, p + m)]);
    assert forall|j: int| m + 1 <= j < n implies #[trigger] agrees(read, w, 0, p, j) by {
        assert(read.sequence@[j] == w.base_at(p + j));
    }
    lemma_scan_matching(read, w, 0, p, (m + 1) as nat, n as nat);
    let st = scan(read, w, 0, p, true, n as nat);
    assert(st.runs + flush(read, st.start, st.count) =~= seq![run(read, p, p + m), run(read, p + m + 1, p + n)]);
    assert(pairing(read, w) + walk(read, w, 1).1 =~= walk(read, w, 1).1);
}

/// The marks of the walk up to and including operation `k`.
proof fn lemma_walk_next(read: Alignment, w: Window, k: nat)
    ensures
        walk(read, w, k + 1) == ({
            let before = walk(read, w, k);
            let here = op_marks(read, w, read.cigar@[k as int], cursor(read.cigar@, k));
            (before.0 + here.0, before.1 + here.1)
        }),
{
}

/// An insertion whose coordinate lies in the window adds exactly one point
/// mark, an `Insertion` carrying all the inserted characters, and no run,
/// whatever the operations around it produce.
pub proof fn lemma_insertion(read: Alignment, w: Window, k: nat, n: u32)
    requires
        read.well_formed(),
        k < read.cigar@.len(),
        read.cigar@[k as int] == CigarOp::Ins(n),
        w.contains(read.pos + cursor(read.cigar@, k).r),
    ensures
        ({
            let cur = cursor(read.cigar@, k);
            let ins = read.sequence@.subrange(cur.q, cur.q + n);
            &&& walk(read, w, k + 1).0 == walk(read, w, k).0.push(
                point(read, Marker::Insertion, ins, read.pos + cur.r),
            )
            &&& walk(read, w, k + 1).1 == walk(read, w, k).1
            &&& ins.len() == n
        }),
{
    lemma_walk_next(read, w, k);
    let cur = cursor(read.cigar@, k);
    assert(read.cigar@[k as int].reads_bases());
    crate::alignment::lemma_cursor_bounded(read.cigar@, k);
    let ins = read.sequence@.subrange(cur.q, cur.q + n);
    assert(walk(read, w, k).0 + seq![point(read, Marker::Insertion, ins, read.pos + cur.r)] =~= walk(
        read,
        w,
        k,
    ).0.push(point(read, Marker::Insertion, ins, read.pos + cur.r)));
    assert(walk(read, w, k).1 + seq![] =~= walk(read, w, k).1);
}

/// Deleted coordinates that all lie in `[from, to)` give one `Deletion`
/// mark each, with no bases, in order.
pub proof fn lemma_deletions_in_window(read: Alignment, from: int, to: int, c0: int, k: nat)
    requires
        from <= c0,
        c0 + k <= to,
    ensures
        deletions(read, from, to, c0, k).len() == k,
        forall|i: int|
            0 <= i < k ==> #[trigger] deletions(read, from, to, c0, k)[i] == point(
                read,
                Marker::Deletion,
                seq![],
                c0 + i,
            ),
    decreases k,
{
    if k > 0 {
        lemma_deletions_in_window(read, from, to, c0, (k - 1) as nat);
    }
}

/// A deletion whose coordinates all lie in the window adds one point mark per
/// deleted base, each a `Deletion` with no bases, and no run.
pub proof fn lemma_deletion(read: Alignment, w: Window, k: nat, n: u32)
    requires
        k < read.cigar@.len(),
        read.cigar@[k as int] == CigarOp::Del(n),
        w.contains(read.pos + cursor(read.cigar@, k).r),
        read.pos + cursor(read.cigar@, k).r + n <= w.to,
    ensures
        ({
            let added = walk(read, w, k + 1).0.subrange(walk(read, w, k).0.len() as int, walk(read, w, k + 1).0.len() as int);
            &&& walk(read, w, k + 1).0.len() == walk(read, w, k).0.len() + n
            &&& forall|i: int|
                0 <= i < n ==> #[trigger] added[i].marker == Marker::Deletion && added[i].bases
                    == Seq::<char>::empty()
            &&& walk(read, w, k + 1).1 == walk(read, w, k).1
        }),
{
    lemma_walk_next(read, w, k);
    let c = read.pos + cursor(read.cigar@, k).r;
    lemma_deletions_in_window(read, w.from, w.to, c, n as nat);
    let before = walk(read, w, k).0;
    let dels = deletions(read, w.from, w.to, c, n as nat);
    assert((before + dels).subrange(before.len() as int, (before + dels).len() as int) =~= dels);
    assert(walk(read, w, k).1 + seq![] =~= walk(read, w, k).1);
}

/// Of two paired reads on the same reference that are each other's mates,
/// with a gap between the end of the first and the start of the second, and
/// the gap starting inside the window, only the first links to the other: one `Pairing` mark over the gap, grouped up
/// to the mate's start plus the mate footprint, ahead of its other runs; the
/// second emits no `Pairing` mark at all.
pub proof fn lemma_mate_link(a: Alignment, b: Alignment, w: Window, gap: int)
    requires
        gap > 0,
        a.paired,
        b.paired,
        a.tid == b.tid,
        a.mate_tid == b.tid,
        b.mate_tid == a.tid,
        a.mate_pos == b.pos,
        b.mate_pos == a.pos,
        b.pos == a.pos + a.length + gap,
        w.contains(a.pos + a.length),
    ensures
        pairing(a, w) == seq![
            RunMark {
                marker: Marker::Pairing,
                start: a.pos + a.length,
                end: b.pos as int,
                flags: a.flags@,
                name: a.name@,
                read_start: a.pos as int,
                read_end: b.pos + MATE_FOOTPRINT,
            },
        ],
        pairing(b, w) == Seq::<RunMark>::empty(),
        encoded(a, w).1[0] == pairing(a, w)[0],
        forall|i: int| 1 <= i < encoded(a, w).1.len() ==> (#[trigger] encoded(a, w).1[i]).marker != Marker::Pairing,
        forall|i: int| 0 <= i < encoded(b, w).1.len() ==> (#[trigger] encoded(b, w).1[i]).marker != Marker::Pairing,
{
    lemma_marks_in_window(a, w, a.cigar@.len());
    lemma_marks_in_window(b, w, b.cigar@.len());
    let wa = walk(a, w, a.cigar@.len()).1;
    let wb = walk(b, w, b.cigar@.len()).1;
    assert(encoded(b, w).1 =~= wb);
    assert forall|i: int| 1 <= i < encoded(a, w).1.len() implies (#[trigger] encoded(a, w).1[i]).marker != Marker::Pairing by {
        assert(encoded(a, w).1[i] == wa[i - 1]);
    }
}

/// Every run a scan produces is a Match run starting inside the window.
proof fn lemma_scan_runs(read: Alignment, w: Window, q0: int, c0: int, adv: bool, k: nat)
    ensures
        ({
            let st = scan(read, w, q0, c0, adv, k);
            &&& forall|i: int|
                0 <= i < st.runs.len() ==> (#[trigger] st.runs[i]).marker == Marker::Match
                    && w.contains(st.runs[i].start)
            &&& forall|i: int| 0 <= i < st.points.len() ==> w.contains((#[trigger] st.points[i]).start)
            &&& st.count > 0 ==> w.contains(st.start)
        }),
    decreases k,
{
    if k > 0 {
        lemma_scan_runs(read, w, q0, c0, adv, (k - 1) as nat);
    }
}

proof fn lemma_deletions_in(read: Alignment, from: int, to: int, c0: int, k: nat)
    ensures
        forall|i: int|
            0 <= i < deletions(read, from, to, c0, k).len() ==> from <= (
            #[trigger] deletions(read, from, to, c0, k)[i]).start < to,
    decreases k,
{
    if k > 0 {
        lemma_deletions_in(read, from, to, c0, (k - 1) as nat);
    }
}

/// Every mark of one operation starts inside the window, and every run it
/// produces is a Match run.
proof fn lemma_op_marks_in_window(read: Alignment, w: Window, op: CigarOp, cur: Cursor)
    ensures
        ({
            let here = op_marks(read, w, op, cur);
            &&& forall|i: int| 0 <= i < here.0.len() ==> w.contains((#[trigger] here.0[i]).start)
            &&& forall|i: int|
                0 <= i < here.1.len() ==> (#[trigger] here.1[i]).marker == Marker::Match
                    && w.contains(here.1[i].start)
        }),
{
    let c = read.pos + cur.r;
    match op {
        CigarOp::Match(n) => {
            lemma_scan_runs(read, w, cur.q, c, true, n as nat);
        },
        CigarOp::SoftClip(n) => {
            lemma_scan_runs(read, w, cur.q, c, cur.clipped, n as nat);
        },
        CigarOp::Del(n) => {
            lemma_deletions_in(read, w.from, w.to, c, n as nat);
        },
        _ => {},
    }
}

/// Every point mark and every run of matching bases of the first `k`
/// operations starts inside `[from, to)`, and every such run is a Match run.
pub proof fn lemma_marks_in_window(read: Alignment, w: Window, k: nat)
    requires
        k <= read.cigar@.len(),
    ensures
        forall|i: int| 0 <= i < walk(read, w, k).0.len() ==> w.contains((#[trigger] walk(read, w, k).0[i]).start),
        forall|i: int|
            0 <= i < walk(read, w, k).1.len() ==> (#[trigger] walk(read, w, k).1[i]).marker
                == Marker::Match && w.contains(walk(read, w, k).1[i].start),
    decreases k,
{
    if k > 0 {
        lemma_marks_in_window(read, w, (k - 1) as nat);
        let before = walk(read, w, (k - 1) as nat);
        let here = op_marks(read, w, read.cigar@[k - 1], cursor(read.cigar@, (k - 1) as nat));
        lemma_op_marks_in_window(read, w, read.cigar@[k - 1], cursor(read.cigar@, (k - 1) as nat));
        assert forall|i: int| 0 <= i < walk(read, w, k).0.len() implies w.contains(
            (#[trigger] walk(read, w, k).0[i]).start,
        ) by {
            if i >= before.0.len() {
                assert(walk(read, w, k).0[i] == here.0[i - before.0.len()]);
            }
        }
        assert forall|i: int| 0 <= i < walk(read, w, k).1.len() implies (#[trigger] walk(
            read,
            w,
            k,
        ).1[i]).marker == Marker::Match && w.contains(walk(read, w, k).1[i].start) by {
            if i >= before.1.len() {
                assert(walk(read, w, k).1[i] == here.1[i - before.1.len()]);
            }
        }
    }
}

/// Window filter: every mark that encoding a read yields, the mate link
/// included, starts inside `[from, to)`; a base at `from` can be shown and a
/// base at `to` never is.
pub proof fn lemma_encoded_in_window(read: Alignment, w: Window)
    ensures
        forall|i: int|
            0 <= i < encoded(read, w).0.len() ==> w.contains((#[trigger] encoded(read, w).0[i]).start),
        forall|i: int|
            0 <= i < encoded(read, w).1.len() ==> w.contains((#[trigger] encoded(read, w).1[i]).start),
{
    let n = read.cigar@.len();
    lemma_marks_in_window(read, w, n);
    let link = pairing(read, w);
    let runs = walk(read, w, n).1;
    assert forall|i: int| 0 <= i < encoded(read, w).1.len() implies w.contains(
        (#[trigger] encoded(read, w).1[i]).start,
    ) by {
        if i >= link.len() {
            assert(encoded(read, w).1[i] == runs[i - link.len()]);
        }
    }
}

/// Half-open window at the boundaries: a read of one mismatching base placed
/// exactly at `from` yields its point mark there; placed exactly at `to`, it
/// yields none.
pub proof fn lemma_window_bounds(read: Alignment, w: Window)
    requires
        read.cigar@ == seq![CigarOp::Match(1)],
        1 <= read.sequence@.len(),
        w.from < w.to,
        read.pos == w.from || read.pos == w.to,
        read.pos == w.from ==> read.sequence@[0] != w.base_at(w.from),
    ensures
        read.pos == w.from ==> encoded(read, w).0 == seq![
            point(read, marker_of(read.sequence@[0]), seq![read.sequence@[0]], w.from),
        ],
        read.pos == w.to ==> encoded(read, w).0 == Seq::<PointMark>::empty(),
{
    lemma_walk_one(read, w);
    reveal_with_fuel(scan, 2);
    let st1 = scan(read, w, 0, read.pos as int, true, 1);
    if read.pos == w.from {
        assert(st1.points =~= seq![
            point(read, marker_of(read.sequence@[0]), seq![read.sequence@[0]], w.from),
        ]);
    }
}

/// Summed width of a sequence of point marks.
pub open spec fn point_span(s: Seq<PointMark>) -> int
    decreases s.len(),
{
    if s.len() == 0 {
        0
    } else {
        point_span(s.drop_last()) + (s.last().end - s.last().start)
    }
}

/// Summed width of a sequence of run marks.
pub open spec fn run_span(s: Seq<RunMark>) -> int
    decreases s.len(),
{
    if s.len() == 0 {
        0
    } else {
        run_span(s.drop_last()) + (s.last().end - s.last().start)
    }
}

/// Width that operation `op`, reached with cursor `cur`, may cover without
/// walking the reference: one for an insertion, the whole length of the
/// first soft clip.
pub open spec fn unwalked_width(op: CigarOp, cur: Cursor) -> int {
    match op {
        CigarOp::Ins(_) => 1,
        CigarOp::SoftClip(n) => if cur.clipped {
            0
        } else {
            n as int
        },
        _ => 0,
    }
}

/// Summed `unwalked_width` of the first `k` operations.
pub open spec fn unwalked(ops: Seq<CigarOp>, k: nat) -> int
    decreases k,
{
    if k == 0 {
        0
    } else {
        unwalked(ops, (k - 1) as nat) + unwalked_width(ops[k - 1], cursor(ops, (k - 1) as nat))
    }
}

proof fn lemma_point_span_concat(a: Seq<PointMark>, b: Seq<PointMark>)
    ensures
        point_span(a + b) == point_span(a) + point_span(b),
    decreases b.len(),
{
    if b.len() == 0 {
        assert(a + b =~= a);
    } else {
        lemma_point_span_concat(a, b.drop_last());
        assert((a + b).drop_last() =~= a + b.drop_last());
    }
}

proof fn lemma_run_span_concat(a: Seq<RunMark>, b: Seq<RunMark>)
    ensures
        run_span(a + b) == run_span(a) + run_span(b),
    decreases b.len(),
{
    if b.len() == 0 {
        assert(a + b =~= a);
    } else {
        lemma_run_span_concat(a, b.drop_last());
        assert((a + b).drop_last() =~= a + b.drop_last());
    }
}

proof fn lemma_flush_span(read: Alignment, start: int, count: int)
    requires
        count >= 0,
    ensures
        run_span(flush(read, start, count)) == count,
{
    reveal_with_fuel(run_span, 2);
    if count > 0 {
        assert(flush(read, start, count).drop_last() =~= Seq::<RunMark>::empty());
    }
}

/// A scan of `k` bases covers at most `k` coordinates, its open run included.
proof fn lemma_scan_span(read: Alignment, w: Window, q0: int, c0: int, adv: bool, k: nat)
    ensures
        ({
            let st = scan(read, w, q0, c0, adv, k);
            &&& st.count >= 0
            &&& point_span(st.points) + run_span(st.runs) + st.count <= k
        }),
    decreases k,
{
    if k > 0 {
        let prev = scan(read, w, q0, c0, adv, (k - 1) as nat);
        lemma_scan_span(read, w, q0, c0, adv, (k - 1) as nat);
        lemma_run_span_concat(prev.runs, flush(read, prev.start, prev.count));
        lemma_flush_span(read, prev.start, prev.count);
        let c = scan_coord(c0, adv, k - 1);
        let b = read.sequence@[q0 + k - 1];
        let p = point(read, marker_of(b), seq![b], c);
        assert(prev.points.push(p).drop_last() =~= prev.points);
    }
}

proof fn lemma_deletions_span(read: Alignment, from: int, to: int, c0: int, k: nat)
    ensures
        point_span(deletions(read, from, to, c0, k)) <= k,
    decreases k,
{
    if k > 0 {
        lemma_deletions_span(read, from, to, c0, (k - 1) as nat);
        let before = deletions(read, from, to, c0, (k - 1) as nat);
        assert(before.push(point(read, Marker::Deletion, seq![], c0 + k - 1)).drop_last() =~= before);
    }
}

/// The marks of one operation cover at most the reference positions it
/// walks plus its unwalked width.
proof fn lemma_op_span(read: Alignment, w: Window, op: CigarOp, cur: Cursor)
    ensures
        ({
            let here = op_marks(read, w, op, cur);
            point_span(here.0) + run_span(here.1) <= (advance(cur, op).r - cur.r) + unwalked_width(
                op,
                cur,
            )
        }),
{
    let c = read.pos + cur.r;
    let here = op_marks(read, w, op, cur);
    match op {
        CigarOp::Match(n) => {
            let st = scan(read, w, cur.q, c, true, n as nat);
            lemma_scan_span(read, w, cur.q, c, true, n as nat);
            lemma_run_span_concat(st.runs, flush(read, st.start, st.count));
            lemma_flush_span(read, st.start, st.count);
        },
        CigarOp::SoftClip(n) => {
            let st = scan(read, w, cur.q, c, cur.clipped, n as nat);
            lemma_scan_span(read, w, cur.q, c, cur.clipped, n as nat);
            lemma_run_span_concat(st.runs, flush(read, st.start, st.count));
            lemma_flush_span(read, st.start, st.count);
        },
        CigarOp::Ins(n) => {
            reveal_with_fuel(point_span, 2);
            if here.0.len() > 0 {
                assert(here.0.drop_last() =~= Seq::<PointMark>::empty());
            }
        },
        CigarOp::Del(n) => {
            lemma_deletions_span(read, w.from, w.to, c, n as nat);
        },
        _ => {},
    }
}

/// The marks of the first `k` operations cover at most the reference
/// positions walked so far plus the unwalked widths.
pub proof fn lemma_walk_span(read: Alignment, w: Window, k: nat)
    requires
        k <= read.cigar@.len(),
    ensures
        point_span(walk(read, w, k).0) + run_span(walk(read, w, k).1) <= cursor(read.cigar@, k).r
            + unwalked(read.cigar@, k),
    decreases k,
{
    if k > 0 {
        let ops = read.cigar@;
        let before = walk(read, w, (k - 1) as nat);
        let cur = cursor(ops, (k - 1) as nat);
        let here = op_marks(read, w, ops[k - 1], cur);
        lemma_walk_span(read, w, (k - 1) as nat);
        lemma_op_span(read, w, ops[k - 1], cur);
        lemma_point_span_concat(before.0, here.0);
        lemma_run_span_concat(before.1, here.1);
    }
}

/// The marks of a read that the window filter keeps (all but the mate link)
/// never cover more coordinates than the reference positions its operations
/// walk, for a read without insertions whose first soft clip, if any, is
/// empty: those are the only marks drawn off the walked reference.
pub proof fn lemma_marks_within_extent(read: Alignment, w: Window)
    requires
        unwalked(read.cigar@, read.cigar@.len()) == 0,
    ensures
        point_span(walk(read, w, read.cigar@.len()).0) + run_span(walk(read, w, read.cigar@.len()).1)
            <= cursor(read.cigar@, read.cigar@.len()).r,
{
    lemma_walk_span(read, w, read.cigar@.len());
}


/// Whether a point mark stands for reference positions: every point mark
/// but an insertion, which sits between two of them.
pub open spec fn on_reference(p: PointMark) -> bool {
    p.marker != Marker::Insertion
}

/// The point marks on the reference and the runs are non-empty intervals
/// inside `[lo, hi)`, pairwise disjoint, and each sequence is ordered left
/// to right.
pub open spec fn laid_out(ps: Seq<PointMark>, rs: Seq<RunMark>, lo: int, hi: int) -> bool {
    &&& forall|i: int|
        0 <= i < ps.len() && on_reference(#[trigger] ps[i]) ==> lo <= ps[i].start < ps[i].end <= hi
    &&& forall|i: int| 0 <= i < rs.len() ==> lo <= (#[trigger] rs[i]).start < rs[i].end <= hi
    &&& forall|i: int, j: int|
        0 <= i < j < ps.len() && on_reference(#[trigger] ps[i]) && on_reference(#[trigger] ps[j])
            ==> ps[i].end <= ps[j].start
    &&& forall|i: int, j: int| 0 <= i < j < rs.len() ==> (#[trigger] rs[i]).end <= (#[trigger] rs[j]).start
    &&& forall|i: int, j: int|
        0 <= i < ps.len() && 0 <= j < rs.len() && on_reference(#[trigger] ps[i]) ==> ps[i].end
            <= (#[trigger] rs[j]).start || rs[j].end <= ps[i].start
}

proof fn lemma_laid_out_widen(ps: Seq<PointMark>, rs: Seq<RunMark>, lo: int, hi: int, hi2: int)
    requires
        laid_out(ps, rs, lo, hi),
        hi <= hi2,
    ensures
        laid_out(ps, rs, lo, hi2),
{
}

/// Marks laid out in `[lo, mid)` followed by marks laid out in `[mid, hi)`
/// are laid out in `[lo, hi)`.
proof fn lemma_laid_out_concat(
    ps1: Seq<PointMark>,
    rs1: Seq<RunMark>,
    ps2: Seq<PointMark>,
    rs2: Seq<RunMark>,
    lo: int,
    mid: int,
    hi: int,
)
    requires
        lo <= mid <= hi,
        laid_out(ps1, rs1, lo, mid),
        laid_out(ps2, rs2, mid, hi),
    ensures
        laid_out(ps1 + ps2, rs1 + rs2, lo, hi),
{
    let ps = ps1 + ps2;
    let rs = rs1 + rs2;
    let n1 = ps1.len() as int;
    let m1 = rs1.len() as int;
    assert forall|i: int| 0 <= i < ps.len() && on_reference(#[trigger] ps[i]) implies lo <= ps[i].start
        < ps[i].end <= hi by {
        if i < n1 {
            assert(ps[i] == ps1[i]);
        } else {
            assert(ps[i] == ps2[i - n1]);
        }
    }
    assert forall|i: int| 0 <= i < rs.len() implies lo <= (#[trigger] rs[i]).start < rs[i].end <= hi by {
        if i < m1 {
            assert(rs[i] == rs1[i]);
        } else {
            assert(rs[i] == rs2[i - m1]);
        }
    }
    assert forall|i: int, j: int|
        0 <= i < j < ps.len() && on_reference(#[trigger] ps[i]) && on_reference(#[trigger] ps[j])
            implies ps[i].end <= ps[j].start by {
        if j < n1 {
            assert(ps[i] == ps1[i] && ps[j] == ps1[j]);
        } else if i < n1 {
            assert(ps[i] == ps1[i] && ps[j] == ps2[j - n1]);
        } else {
            assert(ps[i] == ps2[i - n1] && ps[j] == ps2[j - n1]);
        }
    }
    assert forall|i: int, j: int| 0 <= i < j < rs.len() implies (#[trigger] rs[i]).end <= (
    #[trigger] rs[j]).start by {
        if j < m1 {
            assert(rs[i] == rs1[i] && rs[j] == rs1[j]);
        } else if i < m1 {
            assert(rs[i] == rs1[i] && rs[j] == rs2[j - m1]);
        } else {
            assert(rs[i] == rs2[i - m1] && rs[j] == rs2[j - m1]);
        }
    }
    assert forall|i: int, j: int|
        0 <= i < ps.len() && 0 <= j < rs.len() && on_reference(#[trigger] ps[i]) implies ps[i].end
            <= (#[trigger] rs[j]).start || rs[j].end <= ps[i].start by {
        if i < n1 {
            assert(ps[i] == ps1[i]);
            if j < m1 {
                assert(rs[j] == rs1[j]);
            } else {
                assert(rs[j] == rs2[j - m1]);
            }
        } else {
            assert(ps[i] == ps2[i - n1]);
            if j < m1 {
                assert(rs[j] == rs1[j]);
            } else {
                assert(rs[j] == rs2[j - m1]);
            }
        }
    }
}

/// Right edge of what a walking scan has laid out after `k` bases: the open
/// run's start, or the next coordinate when no run is open.
pub open spec fn scan_frontier(st: Scan, c0: int, k: int) -> int {
    if st.count > 0 {
        st.start
    } else {
        c0 + k
    }
}

/// A scan that walks the reference lays its marks out left to right in
/// `[c0, c0 + k)`, the open run ending no later than `c0 + k`.
proof fn lemma_scan_laid_out(read: Alignment, w: Window, q0: int, c0: int, k: nat)
    ensures
        ({
            let st = scan(read, w, q0, c0, true, k);
            &&& st.count >= 0
            &&& st.count > 0 ==> c0 <= st.start && st.start + st.count <= c0 + k
            &&& laid_out(st.points, st.runs, c0, scan_frontier(st, c0, k as int))
        }),
    decreases k,
{
    if k > 0 {
        let j = k - 1;
        lemma_scan_laid_out(read, w, q0, c0, j as nat);
        let st = scan(read, w, q0, c0, true, j as nat);
        let f = scan_frontier(st, c0, j);
        let c = c0 + j;
        if w.contains(c) {
            let b = read.sequence@[q0 + j];
            if b != w.base_at(c) {
                let fl = flush(read, st.start, st.count);
                let p = point(read, marker_of(b), seq![b], c);
                assert(laid_out(Seq::<PointMark>::empty(), fl, f, c));
                lemma_laid_out_concat(st.points, st.runs, Seq::<PointMark>::empty(), fl, c0, f, c);
                assert(laid_out(seq![p], Seq::<RunMark>::empty(), c, c + 1));
                lemma_laid_out_concat(
                    st.points + Seq::<PointMark>::empty(),
                    st.runs + fl,
                    seq![p],
                    Seq::<RunMark>::empty(),
                    c0,
                    c,
                    c + 1,
                );
                assert(st.points + Seq::<PointMark>::empty() + seq![p] =~= st.points.push(p));
                assert(st.runs + fl + Seq::<RunMark>::empty() =~= st.runs + fl);
            }
        } else if st.count == 0 {
            lemma_laid_out_widen(st.points, st.runs, c0, f, c0 + k);
        }
    }
}

/// Deleted coordinates are laid out left to right in `[c0, c0 + k)`.
proof fn lemma_deletions_laid_out(read: Alignment, from: int, to: int, c0: int, k: nat)
    ensures
        laid_out(deletions(read, from, to, c0, k), Seq::<RunMark>::empty(), c0, c0 + k),
    decreases k,
{
    if k > 0 {
        let before = deletions(read, from, to, c0, (k - 1) as nat);
        lemma_deletions_laid_out(read, from, to, c0, (k - 1) as nat);
        let c = c0 + k - 1;
        if from <= c < to {
            let p = point(read, Marker::Deletion, seq![], c);
            assert(laid_out(seq![p], Seq::<RunMark>::empty(), c, c + 1));
            lemma_laid_out_concat(before, Seq::<RunMark>::empty(), seq![p], Seq::<RunMark>::empty(), c0, c, c + 1);
            assert(before + seq![p] =~= before.push(p));
            assert(Seq::<RunMark>::empty() + Seq::<RunMark>::empty() =~= Seq::<RunMark>::empty());
        } else {
            lemma_laid_out_widen(before, Seq::<RunMark>::empty(), c0, c, c0 + k);
        }
    }
}

/// The marks of one operation other than a soft clip are laid out inside
/// the reference positions it walks.
proof fn lemma_op_laid_out(read: Alignment, w: Window, op: CigarOp, cur: Cursor)
    requires
        !(op is SoftClip),
    ensures
        ({
            let here = op_marks(read, w, op, cur);
            laid_out(here.0, here.1, read.pos + cur.r, read.pos + advance(cur, op).r)
        }),
{
    let c = read.pos + cur.r;
    match op {
        CigarOp::Match(n) => {
            lemma_scan_laid_out(read, w, cur.q, c, n as nat);
            let st = scan(read, w, cur.q, c, true, n as nat);
            let f = scan_frontier(st, c, n as int);
            let fl = flush(read, st.start, st.count);
            assert(laid_out(Seq::<PointMark>::empty(), fl, f, c + n));
            lemma_laid_out_concat(st.points, st.runs, Seq::<PointMark>::empty(), fl, c, f, c + n);
            assert(st.points + Seq::<PointMark>::empty() =~= st.points);
        },
        CigarOp::Del(n) => {
            lemma_deletions_laid_out(read, w.from, w.to, c, n as nat);
        },
        _ => {},
    }
}

/// For a read without soft clips, the marks that the window filter keeps
/// (all but the mate link) are pairwise disjoint, ordered, and lie inside
/// the reference positions its operations walk, `[pos, pos + r)`, where `r`
/// sums its Match and Deletion lengths; insertion marks, which stand between
/// reference positions, are not counted. So the marks cover at most `r`
/// coordinates.
pub proof fn lemma_marks_disjoint_within_extent(read: Alignment, w: Window, k: nat)
    requires
        k <= read.cigar@.len(),
        forall|i: int| 0 <= i < read.cigar@.len() ==> !(#[trigger] read.cigar@[i] is SoftClip),
    ensures
        laid_out(walk(read, w, k).0, walk(read, w, k).1, read.pos as int, read.pos + cursor(read.cigar@, k).r),
    decreases k,
{
    if k > 0 {
        let ops = read.cigar@;
        let cur = cursor(ops, (k - 1) as nat);
        lemma_marks_disjoint_within_extent(read, w, (k - 1) as nat);
        crate::alignment::lemma_cursor_bounded(ops, (k - 1) as nat);
        let before = walk(read, w, (k - 1) as nat);
        let here = op_marks(read, w, ops[k - 1], cur);
        assert(!(ops[k - 1] is SoftClip));
        lemma_op_laid_out(read, w, ops[k - 1], cur);
        lemma_laid_out_concat(before.0, before.1, here.0, here.1, read.pos as int, read.pos + cur.r, read.pos + cursor(ops, k).r);
    }
}

} // verus!
