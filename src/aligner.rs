//! The alignment engine: fills the score and traceback grids by the
//! recurrence, then walks back from the best cell to the two gapped
//! sequences.

use vstd::prelude::*;
use vstd::utf8::{decode_utf8, valid_utf8};

use crate::errors::{AlignError, ERR_CATCH_ALL, ERR_NOT_FOUND};
use crate::matrix::{lemma_cell_in_storage, lemma_same_cells, lemma_storage_cell, Matrix};
use crate::recurrence::{
    ascii_text, cell_move, cell_score, is_ascii_bytes, lemma_ascii_alignment, lemma_peak_at,
    lemma_score_bounds, local_alignment, substitution_score, traced, Trace, GAP, GAP_PENALTY, MATCH,
    MISMATCH,
};

verus! {

/// `k - 1`, for a positive `k`.
pub open spec fn sub_one(k: usize) -> usize {
    (k - 1) as usize
}

/// The grids of an `m`-symbol and an `n`-symbol sequence fit in memory
/// addresses, and every score fits in an `i32`.
pub open spec fn sizes_fit(m: nat, n: nat) -> bool {
    &&& (m + 1) * (n + 1) <= usize::MAX
    &&& (MATCH * m <= i32::MAX || MATCH * n <= i32::MAX)
}

/// Every value of a filled score grid is at least zero.
pub proof fn lemma_filled_scores_nonnegative(al: &Aligner)
    requires
        al.wf(),
        al.is_filled(),
    ensures
        forall|k: int| 0 <= k < al.score_grid()@.len() ==> #[trigger] al.score_grid()@[k] >= 0,
{
    assert forall|k: int| 0 <= k < al.score_grid()@.len() implies #[trigger] al.score_grid()@[k] >= 0 by {
        let g = al.score_grid();
        lemma_storage_cell(&g, k);
        let (i, j) = (k / (g.width() as int), k % (g.width() as int));
        assert(g.in_grid(i, j));
        lemma_score_bounds(al.seq_a(), al.seq_b(), i, j);
    }
}

/// Two built aligners of the same sequences hold the same score grid, the
/// same traceback grid and the same aligned texts.
pub proof fn lemma_build_deterministic(x: &Aligner, y: &Aligner)
    requires
        x.is_built(),
        y.is_built(),
        x.seq_a() == y.seq_a(),
        x.seq_b() == y.seq_b(),
    ensures
        x.score_grid()@ == y.score_grid()@,
        x.trace_grid()@ == y.trace_grid()@,
        x.text_a() == y.text_a(),
        x.text_b() == y.text_b(),
{
    let (xs, ys, xt, yt) = (x.score_grid(), y.score_grid(), x.trace_grid(), y.trace_grid());
    assert forall|i: int, j: int| #[trigger] xs.in_grid(i, j) implies xs.at(i, j) == ys.at(i, j) by {
        assert(ys.in_grid(i, j));
    }
    lemma_same_cells(&xs, &ys);
    assert forall|i: int, j: int| #[trigger] xt.in_grid(i, j) implies xt.at(i, j) == yt.at(i, j) by {
        assert(xs.in_grid(i, j));
        assert(ys.in_grid(i, j));
    }
    lemma_same_cells(&xt, &yt);
}

/// Gluing a symbol to the front part is the same as pushing it on the part
/// that is kept reversed.
proof fn lemma_push_reversed(front: Seq<u8>, x: u8, back: Seq<u8>)
    ensures
        front.push(x) + back.reverse() == front + back.push(x).reverse(),
{
    assert(front.push(x) + back.reverse() =~= front + back.push(x).reverse());
}

/// Relies on `String::from_utf8`: it succeeds exactly on valid UTF-8, and the
/// string then holds the characters that the bytes encode.
#[verifier::external_body]
fn text_of(bytes: Vec<u8>) -> (r: Option<String>)
    ensures
        r is Some <==> valid_utf8(bytes@),
        r matches Some(s) ==> s@ == decode_utf8(bytes@),
{
    String::from_utf8(bytes).ok()
}

/// The bytes of `v` in reverse order.
fn reversed(v: &Vec<u8>) -> (r: Vec<u8>)
    ensures
        r@ == v@.reverse(),
{
    let mut r: Vec<u8> = Vec::new();
    let mut k: usize = v.len();
    while k > 0
        invariant
            k <= v@.len(),
            r@.len() == v@.len() - k,
            forall|l: int| 0 <= l < r@.len() ==> r@[l] == v@[v@.len() - 1 - l],
        decreases k,
    {
        k = k - 1;
        r.push(v[k]);
    }
    assert(r@ =~= v@.reverse());
    r
}

/// Aligns two symbol sequences with the Smith-Waterman recurrence.
pub struct Aligner {
    /// The scoring grid: row `i` stands for `seq1[i - 1]`, column `j` for `seq0[j - 1]`.
    matrix: Matrix<i32>,
    /// The move that produced each score.
    traceback: Matrix<Trace>,
    /// The first sequence.
    seq0: Vec<u8>,
    /// The second sequence.
    seq1: Vec<u8>,
    /// The aligned first sequence.
    aligned0: String,
    /// The aligned second sequence.
    aligned1: String,
}

impl Aligner {
    /// The first sequence.
    pub closed spec fn seq_a(&self) -> Seq<u8> {
        self.seq0@
    }

    /// The second sequence.
    pub closed spec fn seq_b(&self) -> Seq<u8> {
        self.seq1@
    }

    /// The score grid.
    pub closed spec fn score_grid(&self) -> Matrix<i32> {
        self.matrix
    }

    /// The traceback grid.
    pub closed spec fn trace_grid(&self) -> Matrix<Trace> {
        self.traceback
    }

    /// The aligned first sequence, as text.
    pub closed spec fn text_a(&self) -> Seq<char> {
        self.aligned0@
    }

    /// The aligned second sequence, as text.
    pub closed spec fn text_b(&self) -> Seq<char> {
        self.aligned1@
    }

    /// Both grids have `seq_b().len() + 1` rows and `seq_a().len() + 1`
    /// columns, and their border cells hold 0 and `Stop`.
    pub open spec fn wf(&self) -> bool {
        let m = self.seq_a().len();
        let n = self.seq_b().len();
        &&& sizes_fit(m, n)
        &&& self.score_grid().wf()
        &&& self.trace_grid().wf()
        &&& self.score_grid().width() == m + 1
        &&& self.score_grid().height() == n + 1
        &&& self.trace_grid().width() == m + 1
        &&& self.trace_grid().height() == n + 1
        &&& forall|i: int, j: int|
            #[trigger] self.score_grid().in_grid(i, j) && (i == 0 || j == 0) ==> self.score_grid().at(
                i,
                j,
            ) == 0 && self.trace_grid().at(i, j) == Trace::Stop
    }

    /// Every cell of both grids holds its score and its move.
    pub open spec fn is_filled(&self) -> bool {
        forall|i: int, j: int|
            #[trigger] self.score_grid().in_grid(i, j) ==> self.score_grid().at(i, j) == cell_score(
                self.seq_a(),
                self.seq_b(),
                i,
                j,
            ) && self.trace_grid().at(i, j) == cell_move(self.seq_a(), self.seq_b(), i, j)
    }

    /// Grids filled, and the aligned texts are the local alignment decoded.
    pub open spec fn is_built(&self) -> bool {
        &&& self.wf()
        &&& self.is_filled()
        &&& self.text_a() == decode_utf8(local_alignment(self.seq_a(), self.seq_b()).0)
        &&& self.text_b() == decode_utf8(local_alignment(self.seq_a(), self.seq_b()).1)
    }

    /// Cells of interior columns before `j`, and of column `j` above row `i`,
    /// hold their score and move.
    spec fn filled_before(&self, i: int, j: int) -> bool {
        forall|i2: int, j2: int|
            #[trigger] self.score_grid().in_grid(i2, j2) && 1 <= i2 && 1 <= j2 && (j2 < j || (j2
                == j && i2 < i)) ==> self.score_grid().at(i2, j2) == cell_score(
                self.seq_a(),
                self.seq_b(),
                i2,
                j2,
            ) && self.trace_grid().at(i2, j2) == cell_move(self.seq_a(), self.seq_b(), i2, j2)
    }

    /// An aligner of `seq0` and `seq1` whose grids hold 0 and `Stop`
    /// everywhere and whose aligned texts are empty.
    pub fn new(seq0: Vec<u8>, seq1: Vec<u8>) -> (r: Self)
        requires
            sizes_fit(seq0@.len(), seq1@.len()),
        ensures
            r.wf(),
            r.seq_a() == seq0@,
            r.seq_b() == seq1@,
            forall|i: int, j: int| #[trigger] r.score_grid().in_grid(i, j) ==> r.score_grid().at(i, j) == 0,
            forall|i: int, j: int| #[trigger] r.trace_grid().in_grid(i, j) ==> r.trace_grid().at(i, j) == Trace::Stop,
            r.text_a().len() == 0,
            r.text_b().len() == 0,
    {
        proof {
            let (m, n) = (seq0@.len(), seq1@.len());
            assert(m + 1 <= (m + 1) * (n + 1) && n + 1 <= (m + 1) * (n + 1)) by (nonlinear_arith);
        }
        let width = seq0.len() + 1;
        let height = seq1.len() + 1;
        let matrix: Matrix<i32> = Matrix::new(width, height);
        let traceback: Matrix<Trace> = Matrix::new(width, height);
        let r = Aligner { matrix, traceback, seq0, seq1, aligned0: String::new(), aligned1: String::new() };
        proof {
            assert forall|i: int, j: int| #[trigger] r.score_grid().in_grid(i, j) implies r.score_grid().at(i, j) == 0
                && r.trace_grid().at(i, j) == Trace::Stop by {
                lemma_cell_in_storage(&r.matrix, i, j);
                lemma_cell_in_storage(&r.traceback, i, j);
            }
            assert forall|i: int, j: int| #[trigger] r.trace_grid().in_grid(i, j) implies r.trace_grid().at(i, j)
                == Trace::Stop by {
                lemma_cell_in_storage(&r.traceback, i, j);
            }
        }
        r
    }

    /// Fills the score and traceback grids, then walks back from the best
    /// cell to the aligned texts. Fails with `CatchAll`, the grids filled and
    /// the texts left as they were, exactly when the aligned bytes are not
    /// valid UTF-8.
    pub fn build(&mut self) -> (r: Result<(), AlignError>)
        requires
            old(self).wf(),
        ensures
            final(self).wf(),
            final(self).seq_a() == old(self).seq_a(),
            final(self).seq_b() == old(self).seq_b(),
            final(self).is_filled(),
            forall|k: int| 0 <= k < final(self).score_grid()@.len() ==> #[trigger] final(self).score_grid()@[k] >= 0,
            r is Ok <==> valid_utf8(local_alignment(old(self).seq_a(), old(self).seq_b()).0)
                && valid_utf8(local_alignment(old(self).seq_a(), old(self).seq_b()).1),
            r is Ok ==> final(self).is_built(),
            r matches Err(e) ==> e == AlignError::CatchAll && final(self).text_a() == old(self).text_a()
                && final(self).text_b() == old(self).text_b(),
            is_ascii_bytes(old(self).seq_a()) && is_ascii_bytes(old(self).seq_b()) ==> r is Ok
                && final(self).text_a() == ascii_text(local_alignment(old(self).seq_a(), old(self).seq_b()).0)
                && final(self).text_b() == ascii_text(local_alignment(old(self).seq_a(), old(self).seq_b()).1),
    {
        proof {
            if is_ascii_bytes(self.seq_a()) && is_ascii_bytes(self.seq_b()) {
                lemma_ascii_alignment(self.seq_a(), self.seq_b());
            }
        }
        match self.fill() {
            Ok(()) => {},
            Err(e) => return Err(e),
        }
        proof {
            lemma_filled_scores_nonnegative(self);
        }
        self.trace()
    }

    /// The score grid.
    pub fn scores(&self) -> (r: &Matrix<i32>)
        ensures
            *r == self.score_grid(),
    {
        &self.matrix
    }

    /// The traceback grid.
    pub fn traceback(&self) -> (r: &Matrix<Trace>)
        ensures
            *r == self.trace_grid(),
    {
        &self.traceback
    }

    /// The aligned first sequence.
    pub fn aligned0(&self) -> (r: &str)
        ensures
            r@ == self.text_a(),
    {
        self.aligned0.as_str()
    }

    /// The aligned second sequence.
    pub fn aligned1(&self) -> (r: &str)
        ensures
            r@ == self.text_b(),
    {
        self.aligned1.as_str()
    }

    /// Fills both grids by the recurrence, column by column.
    fn fill(&mut self) -> (r: Result<(), AlignError>)
        requires
            old(self).wf(),
        ensures
            r is Ok,
            final(self).wf(),
            final(self).is_filled(),
            final(self).seq_a() == old(self).seq_a(),
            final(self).seq_b() == old(self).seq_b(),
            final(self).text_a() == old(self).text_a(),
            final(self).text_b() == old(self).text_b(),
    {
        let ghost a = self.seq_a();
        let ghost b = self.seq_b();
        let m = self.seq0.len();
        let n = self.seq1.len();
        proof {
            assert(m + 1 <= (m + 1) * (n + 1) && n + 1 <= (m + 1) * (n + 1)) by (nonlinear_arith);
        }
        let mut j: usize = 1;
        while j <= m
            invariant
                1 <= j <= m + 1,
                m == a.len(),
                n == b.len(),
                m + 1 <= usize::MAX,
                n + 1 <= usize::MAX,
                self.wf(),
                self.seq_a() == a,
                self.seq_b() == b,
                self.text_a() == old(self).text_a(),
                self.text_b() == old(self).text_b(),
                self.filled_before(0, j as int),
            decreases m + 1 - j,
        {
            let b0 = match Self::get_base(self.seq0.as_slice(), j - 1) {
                Ok(x) => *x,
                Err(e) => return Err(e),
            };
            let mut i: usize = 1;
            while i <= n
                invariant
                    1 <= i <= n + 1,
                    1 <= j <= m,
                    m == a.len(),
                    n == b.len(),
                    n + 1 <= usize::MAX,
                    b0 == a[j - 1],
                    self.wf(),
                    self.seq_a() == a,
                    self.seq_b() == b,
                    self.text_a() == old(self).text_a(),
                    self.text_b() == old(self).text_b(),
                    self.filled_before(i as int, j as int),
                decreases n + 1 - i,
            {
                let b1 = match Self::get_base(self.seq1.as_slice(), i - 1) {
                    Ok(x) => *x,
                    Err(e) => return Err(e),
                };
                proof {
                    lemma_cell_in_storage(&self.matrix, i - 1, j - 1);
                    lemma_cell_in_storage(&self.matrix, i - 1, j as int);
                    lemma_cell_in_storage(&self.matrix, i as int, j - 1);
                    lemma_cell_in_storage(&self.matrix, i as int, j as int);
                    assert(self.score_grid().in_grid(i - 1, j - 1));
                    assert(self.score_grid().in_grid(i - 1, j as int));
                    assert(self.score_grid().in_grid(i as int, j - 1));
                    lemma_score_bounds(a, b, i - 1, j - 1);
                    lemma_score_bounds(a, b, i - 1, j as int);
                    lemma_score_bounds(a, b, i as int, j - 1);
                }
                let corner = match self.matrix.get(i - 1, j - 1) {
                    Ok(v) => *v,
                    Err(e) => return Err(e),
                };
                let above = match self.matrix.get(i - 1, j) {
                    Ok(v) => *v,
                    Err(e) => return Err(e),
                };
                let beside = match self.matrix.get(i, j - 1) {
                    Ok(v) => *v,
                    Err(e) => return Err(e),
                };
                let n_diag = corner + Self::substitution(&b0, &b1);
                let n_top = above - GAP_PENALTY;
                let n_left = beside - GAP_PENALTY;
                let mut best = n_diag;
                let mut trace = Trace::Diag;
                if n_top > best {
                    best = n_top;
                    trace = Trace::Top;
                }
                if n_left > best {
                    best = n_left;
                    trace = Trace::Left;
                }
                if 0 > best {
                    best = 0;
                    trace = Trace::Stop;
                }
                assert(best == cell_score(a, b, i as int, j as int));
                assert(trace == cell_move(a, b, i as int, j as int));
                let ghost pre = *self;
                match self.matrix.set(i, j, best) {
                    Ok(()) => {},
                    Err(e) => return Err(e),
                }
                match self.traceback.set(i, j, trace) {
                    Ok(()) => {},
                    Err(e) => return Err(e),
                }
                proof {
                    assert forall|i2: int, j2: int| #[trigger] self.score_grid().in_grid(i2, j2) implies
                        self.score_grid().at(i2, j2) == (if i2 == i && j2 == j { best } else { pre.score_grid().at(i2, j2) })
                        && self.trace_grid().at(i2, j2) == (if i2 == i && j2 == j { trace } else { pre.trace_grid().at(i2, j2) }) by {
                        assert(self.trace_grid().in_grid(i2, j2));
                        assert(pre.score_grid().in_grid(i2, j2));
                    }
                    assert forall|i2: int, j2: int| #[trigger] self.score_grid().in_grid(i2, j2) && (i2 == 0 || j2 == 0)
                        implies self.score_grid().at(i2, j2) == 0 && self.trace_grid().at(i2, j2) == Trace::Stop by {
                        assert(pre.score_grid().in_grid(i2, j2));
                    }
                    assert forall|i2: int, j2: int| #[trigger] self.score_grid().in_grid(i2, j2) && 1 <= i2 && 1 <= j2
                        && (j2 < j || (j2 == j && i2 < i + 1)) implies self.score_grid().at(i2, j2) == cell_score(a, b, i2, j2)
                        && self.trace_grid().at(i2, j2) == cell_move(a, b, i2, j2) by {
                        assert(pre.score_grid().in_grid(i2, j2));
                    }
                }
                i = i + 1;
            }
            j = j + 1;
        }
        Ok(())
    }

    /// Walks back from the best cell, then stores the two aligned texts; fails
    /// with `CatchAll`, leaving the texts as they were, when the aligned bytes
    /// are not valid UTF-8.
    fn trace(&mut self) -> (r: Result<(), AlignError>)
        requires
            old(self).wf(),
            old(self).is_filled(),
        ensures
            final(self).seq_a() == old(self).seq_a(),
            final(self).seq_b() == old(self).seq_b(),
            final(self).score_grid() == old(self).score_grid(),
            final(self).trace_grid() == old(self).trace_grid(),
            r is Ok <==> valid_utf8(local_alignment(old(self).seq_a(), old(self).seq_b()).0)
                && valid_utf8(local_alignment(old(self).seq_a(), old(self).seq_b()).1),
            r is Ok ==> final(self).text_a() == decode_utf8(local_alignment(old(self).seq_a(), old(self).seq_b()).0)
                && final(self).text_b() == decode_utf8(local_alignment(old(self).seq_a(), old(self).seq_b()).1),
            r matches Err(e) ==> e == AlignError::CatchAll && final(self).text_a() == old(self).text_a()
                && final(self).text_b() == old(self).text_b(),
    {
        let ghost a = self.seq_a();
        let ghost b = self.seq_b();
        proof {
            lemma_cell_in_storage(&self.matrix, 0, 0);
        }
        let max_ind = self.matrix.max_index();
        proof {
            assert forall|i2: int, j2: int| 0 <= i2 <= b.len() && 0 <= j2 <= a.len() implies
                #[trigger] cell_score(a, b, i2, j2) <= cell_score(a, b, max_ind.0 as int, max_ind.1 as int)
                && ((i2 < max_ind.0 || (i2 == max_ind.0 && j2 < max_ind.1))
                    ==> cell_score(a, b, i2, j2) < cell_score(a, b, max_ind.0 as int, max_ind.1 as int)) by {
                assert(self.score_grid().in_grid(i2, j2));
            }
            assert(self.score_grid().in_grid(max_ind.0 as int, max_ind.1 as int));
            lemma_peak_at(a, b, max_ind.0 as int, max_ind.1 as int);
        }
        let ghost start = traced(a, b, max_ind.0 as int, max_ind.1 as int);
        let mut aligned0: Vec<u8> = Vec::new();
        let mut aligned1: Vec<u8> = Vec::new();
        let mut ind = max_ind;
        loop
            invariant
                self.wf(),
                self.is_filled(),
                self.seq_a() == a,
                self.seq_b() == b,
                0 <= ind.0 <= b.len(),
                0 <= ind.1 <= a.len(),
                start.0 == traced(a, b, ind.0 as int, ind.1 as int).0 + aligned0@.reverse(),
                start.1 == traced(a, b, ind.0 as int, ind.1 as int).1 + aligned1@.reverse(),
            ensures
                cell_move(a, b, ind.0 as int, ind.1 as int) == Trace::Stop,
            decreases ind.0 + ind.1,
        {
            proof {
                assert(self.score_grid().in_grid(ind.0 as int, ind.1 as int));
                lemma_cell_in_storage(&self.traceback, ind.0 as int, ind.1 as int);
            }
            let trace = match self.traceback.get(ind.0, ind.1) {
                Ok(t) => *t,
                Err(e) => return Err(e),
            };
            if trace == Trace::Stop {
                break;
            }
            let b0 = match Self::get_base(self.seq0.as_slice(), ind.1 - 1) {
                Ok(x) => x,
                Err(e) => return Err(e),
            };
            let b1 = match Self::get_base(self.seq1.as_slice(), ind.0 - 1) {
                Ok(x) => x,
                Err(e) => return Err(e),
            };
            let ghost here = ind;
            let ghost pre0 = aligned0@;
            let ghost pre1 = aligned1@;
            match Self::process_trace(&trace, (b0, b1), &mut aligned0, &mut aligned1, &mut ind) {
                Ok(()) => {},
                Err(e) => return Err(e),
            }
            proof {
                let next = traced(a, b, ind.0 as int, ind.1 as int);
                lemma_push_reversed(next.0, aligned0@.last(), pre0);
                lemma_push_reversed(next.1, aligned1@.last(), pre1);
            }
        }
        proof {
            assert(traced(a, b, ind.0 as int, ind.1 as int).0 =~= seq![]);
            assert(start.0 =~= aligned0@.reverse());
            assert(start.1 =~= aligned1@.reverse());
        }
        let text0 = text_of(reversed(&aligned0));
        let text1 = text_of(reversed(&aligned1));
        match (text0, text1) {
            (Some(t0), Some(t1)) => {
                self.aligned0 = t0;
                self.aligned1 = t1;
                Ok(())
            },
            _ => Err(ERR_CATCH_ALL),
        }
    }

    /// Appends the symbols of one move to the back-to-front aligned bytes and
    /// steps `ind` to the cell the move came from; `Stop` changes nothing.
    fn process_trace(
        trace: &Trace,
        bases: (&u8, &u8),
        aligned0: &mut Vec<u8>,
        aligned1: &mut Vec<u8>,
        ind: &mut (usize, usize),
    ) -> (r: Result<(), AlignError>)
        requires
            *trace == Trace::Diag || *trace == Trace::Top ==> old(ind).0 >= 1,
            *trace == Trace::Diag || *trace == Trace::Left ==> old(ind).1 >= 1,
        ensures
            r is Ok,
            *trace == Trace::Diag ==> final(aligned0)@ == old(aligned0)@.push(*bases.0)
                && final(aligned1)@ == old(aligned1)@.push(*bases.1)
                && *final(ind) == (sub_one(old(ind).0), sub_one(old(ind).1)),
            *trace == Trace::Top ==> final(aligned0)@ == old(aligned0)@.push(GAP)
                && final(aligned1)@ == old(aligned1)@.push(*bases.1)
                && *final(ind) == (sub_one(old(ind).0), old(ind).1),
            *trace == Trace::Left ==> final(aligned0)@ == old(aligned0)@.push(*bases.0)
                && final(aligned1)@ == old(aligned1)@.push(GAP)
                && *final(ind) == (old(ind).0, sub_one(old(ind).1)),
            *trace == Trace::Stop ==> final(aligned0)@ == old(aligned0)@
                && final(aligned1)@ == old(aligned1)@
                && *final(ind) == *old(ind),
    {
        match trace {
            Trace::Diag => {
                aligned0.push(*bases.0);
                aligned1.push(*bases.1);
                ind.0 = ind.0 - 1;
                ind.1 = ind.1 - 1;
            },
            Trace::Top => {
                aligned0.push(GAP);
                aligned1.push(*bases.1);
                ind.0 = ind.0 - 1;
            },
            Trace::Left => {
                aligned0.push(*bases.0);
                aligned1.push(GAP);
                ind.1 = ind.1 - 1;
            },
            Trace::Stop => {},
        }
        Ok(())
    }

    /// Score of aligning `b0` with `b1`.
    fn substitution(b0: &u8, b1: &u8) -> (r: i32)
        ensures
            r == substitution_score(*b0, *b1),
    {
        if b0 == b1 {
            return MATCH;
        }
        MISMATCH
    }

    /// The symbol at position `ind` of `seq`, or `NotFound` past its end.
    fn get_base(seq: &[u8], ind: usize) -> (r: Result<&u8, AlignError>)
        ensures
            r is Ok <==> ind < seq@.len(),
            r matches Ok(x) ==> *x == seq@[ind as int],
            r matches Err(e) ==> e == AlignError::NotFound,
    {
        if ind < seq.len() {
            Ok(&seq[ind])
        } else {
            Err(ERR_NOT_FOUND)
        }
    }
}

} // verus!
