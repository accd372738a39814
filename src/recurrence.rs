//! The Smith-Waterman recurrence as mathematics: the score and the move of
//! each cell, the walk back from a cell, the best cell, and what holds of
//! them.

use vstd::prelude::*;
use vstd::utf8::{
    decode_utf8, encode_utf8, encode_utf8_decode_utf8, encode_utf8_valid_utf8, is_ascii_chars,
    is_ascii_chars_encode_utf8, valid_utf8,
};

verus! {

/// Score subtracted for each symbol aligned against a gap.
pub const GAP_PENALTY: i32 = 2;

/// Score of two identical symbols aligned together.
pub const MATCH: i32 = 3;

/// Score of two different symbols aligned together.
pub const MISMATCH: i32 = -3;

/// The byte written for a gap in an aligned sequence.
pub const GAP: u8 = 45;

/// The move that produced the score of a cell.
#[derive(Clone, Copy, Debug, PartialEq, Eq, Structural)]
pub enum Trace {
    /// The alignment starts here: the score was floored at zero, or the cell is on the border.
    Stop,
    /// A symbol of the second sequence against a gap.
    Top,
    /// A symbol of the first sequence against a gap.
    Left,
    /// The two current symbols aligned together.
    Diag,
}

impl Default for Trace {
    fn default() -> (r: Trace)
        ensures
            r == Trace::Stop,
    {
        Trace::Stop
    }
}

/// Score of aligning symbol `x` of the first sequence with symbol `y` of the second.
pub open spec fn substitution_score(x: u8, y: u8) -> int {
    if x == y {
        MATCH as int
    } else {
        MISMATCH as int
    }
}

/// Candidate score of cell `(i, j)` that aligns `a[j - 1]` with `b[i - 1]`.
pub open spec fn diag_candidate(a: Seq<u8>, b: Seq<u8>, i: int, j: int) -> int
    recommends
        1 <= i,
        1 <= j,
    decreases i + j, 0int,
{
    if 1 <= i && 1 <= j {
        cell_score(a, b, i - 1, j - 1) + substitution_score(a[j - 1], b[i - 1])
    } else {
        0
    }
}

/// Candidate score of cell `(i, j)` that puts `b[i - 1]` against a gap.
pub open spec fn top_candidate(a: Seq<u8>, b: Seq<u8>, i: int, j: int) -> int
    recommends
        1 <= i,
        1 <= j,
    decreases i + j, 0int,
{
    if 1 <= i && 1 <= j {
        cell_score(a, b, i - 1, j) - GAP_PENALTY
    } else {
        0
    }
}

/// Candidate score of cell `(i, j)` that puts `a[j - 1]` against a gap.
pub open spec fn left_candidate(a: Seq<u8>, b: Seq<u8>, i: int, j: int) -> int
    recommends
        1 <= i,
        1 <= j,
    decreases i + j, 0int,
{
    if 1 <= i && 1 <= j {
        cell_score(a, b, i, j - 1) - GAP_PENALTY
    } else {
        0
    }
}

/// Best score of a local alignment that ends with `a[j - 1]` and `b[i - 1]`:
/// zero on the border, else the largest of the three candidates and zero.
pub open spec fn cell_score(a: Seq<u8>, b: Seq<u8>, i: int, j: int) -> int
    decreases i + j, 1int,
{
    if i <= 0 || j <= 0 {
        0
    } else {
        let d = diag_candidate(a, b, i, j);
        let t = top_candidate(a, b, i, j);
        let l = left_candidate(a, b, i, j);
        let dt = if d >= t { d } else { t };
        let dtl = if dt >= l { dt } else { l };
        if dtl >= 0 { dtl } else { 0 }
    }
}

/// The move recorded for cell `(i, j)`: the first candidate, in the order
/// diagonal, top, left, that reaches the cell's score; `Stop` when only the
/// zero floor does, and on the border.
pub open spec fn cell_move(a: Seq<u8>, b: Seq<u8>, i: int, j: int) -> Trace {
    if i <= 0 || j <= 0 {
        Trace::Stop
    } else if diag_candidate(a, b, i, j) == cell_score(a, b, i, j) {
        Trace::Diag
    } else if top_candidate(a, b, i, j) == cell_score(a, b, i, j) {
        Trace::Top
    } else if left_candidate(a, b, i, j) == cell_score(a, b, i, j) {
        Trace::Left
    } else {
        Trace::Stop
    }
}

/// The two gapped sequences read by following the moves back from cell
/// `(i, j)` to a `Stop`, in the order of the input sequences.
pub open spec fn traced(a: Seq<u8>, b: Seq<u8>, i: int, j: int) -> (Seq<u8>, Seq<u8>)
    decreases i + j,
{
    if i <= 0 || j <= 0 {
        (seq![], seq![])
    } else {
        match cell_move(a, b, i, j) {
            Trace::Stop => (seq![], seq![]),
            Trace::Diag => {
                let p = traced(a, b, i - 1, j - 1);
                (p.0.push(a[j - 1]), p.1.push(b[i - 1]))
            },
            Trace::Top => {
                let p = traced(a, b, i - 1, j);
                (p.0.push(GAP), p.1.push(b[i - 1]))
            },
            Trace::Left => {
                let p = traced(a, b, i, j - 1);
                (p.0.push(a[j - 1]), p.1.push(GAP))
            },
        }
    }
}

/// Cell `(i, j)` of the `(b.len() + 1) x (a.len() + 1)` score grid holds the
/// largest score, and no cell before it in row-major order does.
pub open spec fn is_peak(a: Seq<u8>, b: Seq<u8>, i: int, j: int) -> bool {
    &&& 0 <= i <= b.len()
    &&& 0 <= j <= a.len()
    &&& forall|i2: int, j2: int|
        0 <= i2 <= b.len() && 0 <= j2 <= a.len() ==> #[trigger] cell_score(a, b, i2, j2)
            <= cell_score(a, b, i, j)
    &&& forall|i2: int, j2: int|
        0 <= i2 <= b.len() && 0 <= j2 <= a.len() && (i2 < i || (i2 == i && j2 < j))
            ==> #[trigger] cell_score(a, b, i2, j2) < cell_score(a, b, i, j)
}

/// The cell where the traceback starts.
pub open spec fn peak(a: Seq<u8>, b: Seq<u8>) -> (int, int) {
    choose|p: (int, int)| is_peak(a, b, p.0, p.1)
}

/// The best local alignment score of `a` and `b`.
pub open spec fn best_local_score(a: Seq<u8>, b: Seq<u8>) -> int {
    cell_score(a, b, peak(a, b).0, peak(a, b).1)
}

/// The local alignment of `a` and `b` that the traceback reports, as bytes.
pub open spec fn local_alignment(a: Seq<u8>, b: Seq<u8>) -> (Seq<u8>, Seq<u8>) {
    traced(a, b, peak(a, b).0, peak(a, b).1)
}

/// Scores lie between zero and `MATCH` times the shorter prefix.
pub proof fn lemma_score_bounds(a: Seq<u8>, b: Seq<u8>, i: int, j: int)
    requires
        0 <= i,
        0 <= j,
    ensures
        0 <= cell_score(a, b, i, j),
        cell_score(a, b, i, j) <= MATCH * i,
        cell_score(a, b, i, j) <= MATCH * j,
    decreases i + j,
{
    if i > 0 && j > 0 {
        lemma_score_bounds(a, b, i - 1, j - 1);
        lemma_score_bounds(a, b, i - 1, j);
        lemma_score_bounds(a, b, i, j - 1);
    }
}

/// A peak cell is the only one: once a cell is a peak, `peak` names it.
pub proof fn lemma_peak_at(a: Seq<u8>, b: Seq<u8>, i: int, j: int)
    requires
        is_peak(a, b, i, j),
    ensures
        peak(a, b) == (i, j),
{
    let w = (i, j);
    assert(is_peak(a, b, w.0, w.1));
    let p = peak(a, b);
    assert(is_peak(a, b, p.0, p.1));
    assert(cell_score(a, b, p.0, p.1) <= cell_score(a, b, i, j));
    assert(cell_score(a, b, i, j) <= cell_score(a, b, p.0, p.1));
    assert(p == (i, j));
}

/// The two sequences read back from any cell have equal length.
pub proof fn lemma_traced_equal_length(a: Seq<u8>, b: Seq<u8>, i: int, j: int)
    ensures
        traced(a, b, i, j).0.len() == traced(a, b, i, j).1.len(),
    decreases i + j,
{
    if i > 0 && j > 0 {
        match cell_move(a, b, i, j) {
            Trace::Stop => {},
            Trace::Diag => lemma_traced_equal_length(a, b, i - 1, j - 1),
            Trace::Top => lemma_traced_equal_length(a, b, i - 1, j),
            Trace::Left => lemma_traced_equal_length(a, b, i, j - 1),
        }
    }
}

/// Along the diagonal of a sequence against itself every cell scores
/// `MATCH` per symbol and comes from the diagonal, and the walk back reads the
/// prefix twice.
proof fn lemma_self_diagonal(s: Seq<u8>, k: int)
    requires
        0 <= k <= s.len(),
    ensures
        cell_score(s, s, k, k) == MATCH * k,
        k >= 1 ==> cell_move(s, s, k, k) == Trace::Diag,
        traced(s, s, k, k) == (s.subrange(0, k), s.subrange(0, k)),
    decreases k,
{
    if k >= 1 {
        lemma_self_diagonal(s, k - 1);
        lemma_score_bounds(s, s, k, k);
        lemma_score_bounds(s, s, k - 1, k);
        lemma_score_bounds(s, s, k, k - 1);
        assert(s.subrange(0, k - 1).push(s[k - 1]) =~= s.subrange(0, k));
    } else {
        assert(s.subrange(0, 0) =~= seq![]);
    }
}

/// A sequence aligned with itself: the best score is `MATCH` per symbol and
/// the alignment is the whole sequence on both sides, without gaps.
pub proof fn lemma_self_alignment(s: Seq<u8>)
    requires
        s.len() > 0,
    ensures
        peak(s, s) == (s.len() as int, s.len() as int),
        best_local_score(s, s) == MATCH * s.len(),
        local_alignment(s, s) == (s, s),
{
    let n = s.len() as int;
    lemma_self_diagonal(s, n);
    assert forall|i2: int, j2: int| 0 <= i2 <= n && 0 <= j2 <= n implies #[trigger] cell_score(s, s, i2, j2)
        <= cell_score(s, s, n, n) && ((i2 < n || (i2 == n && j2 < n)) ==> cell_score(s, s, i2, j2) < cell_score(
        s,
        s,
        n,
        n,
    )) by {
        lemma_score_bounds(s, s, i2, j2);
    }
    lemma_peak_at(s, s, n, n);
    assert(s.subrange(0, n) =~= s);
}

/// With no symbol shared by `a` and `b`, every cell of the score grid is zero.
proof fn lemma_disjoint_scores(a: Seq<u8>, b: Seq<u8>, i: int, j: int)
    requires
        forall|x: int, y: int| 0 <= x < a.len() && 0 <= y < b.len() ==> a[x] != b[y],
        0 <= i <= b.len(),
        0 <= j <= a.len(),
    ensures
        cell_score(a, b, i, j) == 0,
    decreases i + j,
{
    if i > 0 && j > 0 {
        lemma_disjoint_scores(a, b, i - 1, j - 1);
        lemma_disjoint_scores(a, b, i - 1, j);
        lemma_disjoint_scores(a, b, i, j - 1);
    }
}

/// When every cell scores zero, the first cell is the peak and the alignment is empty.
proof fn lemma_all_zero_alignment(a: Seq<u8>, b: Seq<u8>)
    requires
        forall|i: int, j: int| 0 <= i <= b.len() && 0 <= j <= a.len() ==> #[trigger] cell_score(a, b, i, j) == 0,
    ensures
        peak(a, b) == (0int, 0int),
        best_local_score(a, b) == 0,
        local_alignment(a, b) == (Seq::<u8>::empty(), Seq::<u8>::empty()),
{
    assert(cell_score(a, b, 0, 0) == 0);
    lemma_peak_at(a, b, 0, 0);
    assert(local_alignment(a, b).0 =~= Seq::<u8>::empty());
    assert(local_alignment(a, b).1 =~= Seq::<u8>::empty());
}

/// Sequences with no symbol in common: every score is zero, the traceback
/// starts on the first cell, which is a `Stop`, and the alignment is empty.
pub proof fn lemma_disjoint_alphabets(a: Seq<u8>, b: Seq<u8>)
    requires
        forall|x: int, y: int| 0 <= x < a.len() && 0 <= y < b.len() ==> a[x] != b[y],
    ensures
        forall|i: int, j: int| 0 <= i <= b.len() && 0 <= j <= a.len() ==> #[trigger] cell_score(a, b, i, j) == 0,
        peak(a, b) == (0int, 0int),
        cell_move(a, b, 0, 0) == Trace::Stop,
        best_local_score(a, b) == 0,
        local_alignment(a, b) == (Seq::<u8>::empty(), Seq::<u8>::empty()),
{
    assert forall|i: int, j: int| 0 <= i <= b.len() && 0 <= j <= a.len() implies #[trigger] cell_score(a, b, i, j) == 0 by {
        lemma_disjoint_scores(a, b, i, j);
    }
    lemma_all_zero_alignment(a, b);
}

/// An empty input: every score is zero and the alignment is empty.
pub proof fn lemma_empty_input(a: Seq<u8>, b: Seq<u8>)
    requires
        a.len() == 0 || b.len() == 0,
    ensures
        forall|i: int, j: int| 0 <= i <= b.len() && 0 <= j <= a.len() ==> #[trigger] cell_score(a, b, i, j) == 0,
        best_local_score(a, b) == 0,
        local_alignment(a, b) == (Seq::<u8>::empty(), Seq::<u8>::empty()),
{
    lemma_all_zero_alignment(a, b);
}

/// Cell `(i2, j2)` comes before cell `(i, j)` in row-major order.
pub open spec fn row_major_before(i2: int, j2: int, i: int, j: int) -> bool {
    i2 < i || (i2 == i && j2 < j)
}

/// The first cell, in row-major order, of largest score among the cells of
/// the grid up to and including `(i, j)`.
spec fn leader(a: Seq<u8>, b: Seq<u8>, i: int, j: int) -> (int, int)
    decreases i, j,
{
    if i < 0 || j < 0 || (i == 0 && j == 0) {
        (0, 0)
    } else {
        let prev = if j > 0 {
            leader(a, b, i, j - 1)
        } else {
            leader(a, b, i - 1, a.len() as int)
        };
        if cell_score(a, b, i, j) > cell_score(a, b, prev.0, prev.1) {
            (i, j)
        } else {
            prev
        }
    }
}

/// The leader up to `(i, j)` is a cell up to `(i, j)` that no cell up to
/// `(i, j)` outscores, and that every cell before it scores below.
proof fn lemma_leader(a: Seq<u8>, b: Seq<u8>, i: int, j: int)
    requires
        0 <= i,
        0 <= j <= a.len(),
    ensures
        ({
            let p = leader(a, b, i, j);
            &&& 0 <= p.0 <= i
            &&& 0 <= p.1 <= a.len()
            &&& !row_major_before(i, j, p.0, p.1)
            &&& forall|i2: int, j2: int|
                0 <= i2 && 0 <= j2 <= a.len() && !row_major_before(i, j, i2, j2) ==> #[trigger] cell_score(
                    a,
                    b,
                    i2,
                    j2,
                ) <= cell_score(a, b, p.0, p.1)
            &&& forall|i2: int, j2: int|
                0 <= i2 && 0 <= j2 <= a.len() && row_major_before(i2, j2, p.0, p.1) ==> #[trigger] cell_score(
                    a,
                    b,
                    i2,
                    j2,
                ) < cell_score(a, b, p.0, p.1)
        }),
    decreases i, j,
{
    if i == 0 && j == 0 {
    } else if j > 0 {
        lemma_leader(a, b, i, j - 1);
    } else {
        lemma_leader(a, b, i - 1, a.len() as int);
    }
}

/// Every pair of sequences has a peak cell.
pub proof fn lemma_peak_exists(a: Seq<u8>, b: Seq<u8>)
    ensures
        is_peak(a, b, peak(a, b).0, peak(a, b).1),
{
    let n = b.len() as int;
    let m = a.len() as int;
    lemma_leader(a, b, n, m);
    let p = leader(a, b, n, m);
    assert forall|i2: int, j2: int| 0 <= i2 <= n && 0 <= j2 <= m implies #[trigger] cell_score(a, b, i2, j2)
        <= cell_score(a, b, p.0, p.1) && (row_major_before(i2, j2, p.0, p.1) ==> cell_score(a, b, i2, j2)
        < cell_score(a, b, p.0, p.1)) by {
        assert(!row_major_before(n, m, i2, j2));
    }
    lemma_peak_at(a, b, p.0, p.1);
}

/// Every byte of `s` is ASCII.
pub open spec fn is_ascii_bytes(s: Seq<u8>) -> bool {
    forall|k: int| 0 <= k < s.len() ==> #[trigger] s[k] < 128
}

/// ASCII bytes read as characters, one for one.
pub open spec fn ascii_text(s: Seq<u8>) -> Seq<char> {
    s.map_values(|x: u8| x as char)
}

/// ASCII bytes are valid UTF-8 and decode to the characters of the same codes.
proof fn lemma_ascii_decodes(s: Seq<u8>)
    requires
        is_ascii_bytes(s),
    ensures
        valid_utf8(s),
        decode_utf8(s) == ascii_text(s),
{
    let c = ascii_text(s);
    assert(is_ascii_chars(c)) by {
        assert forall|k: int| 0 <= k < c.len() implies '\0' <= #[trigger] c[k] <= '\u{7f}' by {
            assert(s[k] < 128);
        }
    }
    is_ascii_chars_encode_utf8(c);
    assert(encode_utf8(c) =~= s);
    encode_utf8_valid_utf8(c);
    encode_utf8_decode_utf8(c);
}

/// What is read back from ASCII sequences is ASCII: input symbols and gaps.
proof fn lemma_traced_ascii(a: Seq<u8>, b: Seq<u8>, i: int, j: int)
    requires
        is_ascii_bytes(a),
        is_ascii_bytes(b),
        i <= b.len(),
        j <= a.len(),
    ensures
        is_ascii_bytes(traced(a, b, i, j).0),
        is_ascii_bytes(traced(a, b, i, j).1),
    decreases i + j,
{
    if i > 0 && j > 0 {
        match cell_move(a, b, i, j) {
            Trace::Stop => {},
            Trace::Diag => lemma_traced_ascii(a, b, i - 1, j - 1),
            Trace::Top => lemma_traced_ascii(a, b, i - 1, j),
            Trace::Left => lemma_traced_ascii(a, b, i, j - 1),
        }
        let p = traced(a, b, i, j);
        assert(is_ascii_bytes(p.0) && is_ascii_bytes(p.1)) by {
            assert(a[j - 1] < 128);
            assert(b[i - 1] < 128);
        }
    }
}

/// The local alignment of two ASCII sequences is ASCII, hence valid UTF-8,
/// and reads as the characters of its bytes.
pub proof fn lemma_ascii_alignment(a: Seq<u8>, b: Seq<u8>)
    requires
        is_ascii_bytes(a),
        is_ascii_bytes(b),
    ensures
        valid_utf8(local_alignment(a, b).0),
        valid_utf8(local_alignment(a, b).1),
        decode_utf8(local_alignment(a, b).0) == ascii_text(local_alignment(a, b).0),
        decode_utf8(local_alignment(a, b).1) == ascii_text(local_alignment(a, b).1),
{
    lemma_peak_exists(a, b);
    lemma_traced_ascii(a, b, peak(a, b).0, peak(a, b).1);
    lemma_ascii_decodes(local_alignment(a, b).0);
    lemma_ascii_decodes(local_alignment(a, b).1);
}

} // verus!
