//! Group similarity: the pairwise score matrix between two term sets,
//! reduced to one fixed-point score by a pluggable aggregation strategy.

use vstd::prelude::*;

verus! {

use crate::ontology::{Ontology, MAX_TERMS, lemma_resolvable_unique_len};
use crate::ratio::SIM_SCALE;
use crate::similarity::{CustomJaccardIC, sim_num, sim_den};
use crate::termset::TermSet;

/// A well-formed score matrix: rectangular, dimensions bounded so every
/// aggregate fits, and each entry a fixed-point score of at most `SIM_SCALE`.
pub open spec fn matrix_wf(m: Seq<Seq<u64>>) -> bool {
    &&& m.len() <= MAX_TERMS
    &&& forall|i: int| 0 <= i < m.len() ==> (#[trigger] m[i]).len() == m[0].len()
    &&& m.len() > 0 ==> m[0].len() <= MAX_TERMS
    &&& forall|i: int, j: int|
        0 <= i < m.len() && 0 <= j < m[i].len() ==> #[trigger] m[i][j] <= SIM_SCALE
}

/// An aggregation strategy that reduces a pairwise score matrix to one group
/// score. The strategy is pluggable: any implementation may stand here, and
/// every caller's contract speaks of its `spec_aggregate`.
pub trait ScoreAggregator: Sized {
    /// What the strategy computes from a matrix.
    spec fn spec_aggregate(m: Seq<Seq<u64>>) -> u64;

    /// Every aggregate of a well-formed matrix stays a fixed-point score.
    proof fn aggregate_in_range(m: Seq<Seq<u64>>)
        requires
            matrix_wf(m),
        ensures
            Self::spec_aggregate(m) <= SIM_SCALE,
    ;

    /// Computes the aggregate.
    fn aggregate(&self, m: &Vec<Vec<u64>>) -> (r: u64)
        requires
            matrix_wf(m.deep_view()),
        ensures
            r == Self::spec_aggregate(m.deep_view()),
    ;
}

/// Largest entry of a row, `0` for an empty row.
pub open spec fn row_max(row: Seq<u64>) -> int
    decreases row.len(),
{
    if row.len() == 0 {
        0
    } else {
        let rest = row_max(row.drop_last());
        if row.last() > rest {
            row.last() as int
        } else {
            rest
        }
    }
}

/// Sum of the row maxima of the first `n` rows.
pub open spec fn row_max_sum(m: Seq<Seq<u64>>, n: int) -> int
    decreases n,
{
    if n <= 0 {
        0
    } else {
        row_max_sum(m, n - 1) + row_max(m[n - 1])
    }
}

/// Largest entry of column `j` over the first `n` rows.
pub open spec fn col_max(m: Seq<Seq<u64>>, j: int, n: int) -> int
    decreases n,
{
    if n <= 0 {
        0
    } else {
        let rest = col_max(m, j, n - 1);
        if m[n - 1][j] > rest {
            m[n - 1][j] as int
        } else {
            rest
        }
    }
}

/// Sum of the column maxima of the first `c` columns.
pub open spec fn col_max_sum(m: Seq<Seq<u64>>, c: int) -> int
    decreases c,
{
    if c <= 0 {
        0
    } else {
        col_max_sum(m, c - 1) + col_max(m, c - 1, m.len() as int)
    }
}

/// The symmetric best-match average: the mean of the row-wise best matches
/// averaged with the mean of the column-wise best matches, as one exact
/// integer division `(rowSum*cols + colSum*rows) / (2*rows*cols)`.
pub open spec fn fun_sim_avg_spec(m: Seq<Seq<u64>>) -> u64 {
    if m.len() == 0 || m[0].len() == 0 {
        0u64
    } else {
        let rows = m.len() as int;
        let cols = m[0].len() as int;
        ((row_max_sum(m, rows) * cols + col_max_sum(m, cols) * rows) / (2 * rows * cols)) as u64
    }
}

/// A row maximum of a well-formed matrix is a fixed-point score.
proof fn lemma_row_max_range(row: Seq<u64>)
    requires
        forall|j: int| 0 <= j < row.len() ==> #[trigger] row[j] <= SIM_SCALE,
    ensures
        0 <= row_max(row) <= SIM_SCALE,
    decreases row.len(),
{
    if row.len() > 0 {
        assert(forall|j: int|
            0 <= j < row.drop_last().len() ==> #[trigger] row.drop_last()[j] == row[j]);
        lemma_row_max_range(row.drop_last());
    }
}

/// The row-max sum of a well-formed matrix is at most `n * SIM_SCALE`.
proof fn lemma_row_max_sum_range(m: Seq<Seq<u64>>, n: int)
    requires
        matrix_wf(m),
        0 <= n <= m.len(),
    ensures
        0 <= row_max_sum(m, n) <= n * SIM_SCALE,
    decreases n,
{
    if n > 0 {
        lemma_row_max_sum_range(m, n - 1);
        lemma_row_max_range(m[n - 1]);
        assert((n - 1) * SIM_SCALE + SIM_SCALE == n * SIM_SCALE) by (nonlinear_arith);
    }
}

/// A column maximum of a well-formed matrix is a fixed-point score.
proof fn lemma_col_max_range(m: Seq<Seq<u64>>, j: int, n: int)
    requires
        matrix_wf(m),
        0 <= j,
        m.len() > 0 ==> j < m[0].len(),
        0 <= n <= m.len(),
    ensures
        0 <= col_max(m, j, n) <= SIM_SCALE,
    decreases n,
{
    if n > 0 {
        lemma_col_max_range(m, j, n - 1);
    }
}

/// The column-max sum of a well-formed matrix is at most `c * SIM_SCALE`.
proof fn lemma_col_max_sum_range(m: Seq<Seq<u64>>, c: int)
    requires
        matrix_wf(m),
        m.len() > 0,
        0 <= c <= m[0].len(),
    ensures
        0 <= col_max_sum(m, c) <= c * SIM_SCALE,
    decreases c,
{
    if c > 0 {
        lemma_col_max_sum_range(m, c - 1);
        lemma_col_max_range(m, c - 1, m.len() as int);
        assert((c - 1) * SIM_SCALE + SIM_SCALE == c * SIM_SCALE) by (nonlinear_arith);
    }
}

/// The symmetric best-match average of a well-formed matrix stays in range.
proof fn lemma_fun_sim_avg_range(m: Seq<Seq<u64>>)
    requires
        matrix_wf(m),
    ensures
        fun_sim_avg_spec(m) <= SIM_SCALE,
        m.len() > 0 && m[0].len() > 0 ==> {
            let rows = m.len() as int;
            let cols = m[0].len() as int;
            let num = row_max_sum(m, rows) * cols + col_max_sum(m, cols) * rows;
            0 <= num <= 2 * rows * cols * SIM_SCALE && fun_sim_avg_spec(m) == num / (2 * rows
                * cols)
        },
{
    if m.len() > 0 && m[0].len() > 0 {
        let rows = m.len() as int;
        let cols = m[0].len() as int;
        lemma_row_max_sum_range(m, rows);
        lemma_col_max_sum_range(m, cols);
        let num = row_max_sum(m, rows) * cols + col_max_sum(m, cols) * rows;
        assert(0 <= num <= 2 * rows * cols * SIM_SCALE) by (nonlinear_arith)
            requires
                0 <= row_max_sum(m, rows) <= rows * SIM_SCALE,
                0 <= col_max_sum(m, cols) <= cols * SIM_SCALE,
                num == row_max_sum(m, rows) * cols + col_max_sum(m, cols) * rows,
                rows > 0,
                cols > 0,
        ;
        assert(num / (2 * rows * cols) <= SIM_SCALE) by (nonlinear_arith)
            requires
                0 <= num <= 2 * rows * cols * SIM_SCALE,
                rows > 0,
                cols > 0,
        ;
        assert(0 <= num / (2 * rows * cols)) by (nonlinear_arith)
            requires
                0 <= num,
                rows > 0,
                cols > 0,
        ;
    }
}

/// The symmetric best-match-average strategy, the default aggregation.
pub struct FunSimAvg {}

impl ScoreAggregator for FunSimAvg {
    open spec fn spec_aggregate(m: Seq<Seq<u64>>) -> u64 {
        fun_sim_avg_spec(m)
    }

    proof fn aggregate_in_range(m: Seq<Seq<u64>>) {
        lemma_fun_sim_avg_range(m);
    }

    fn aggregate(&self, m: &Vec<Vec<u64>>) -> (r: u64) {
        let ghost gm = m.deep_view();
        proof {
            assert(forall|i: int| 0 <= i < m@.len() ==> (#[trigger] m@[i])@ == gm[i]);
        }
        let rows = m.len();
        if rows == 0 {
            return 0;
        }
        let cols = m[0].len();
        if cols == 0 {
            return 0;
        }
        // sum of row maxima
        let mut rsum: u128 = 0;
        let mut i: usize = 0;
        while i < rows
            invariant
                i <= rows,
                rows == gm.len(),
                cols == gm[0].len(),
                rows >= 1,
                cols >= 1,
                matrix_wf(gm),
                m.deep_view() == gm,
                forall|k: int| 0 <= k < m@.len() ==> (#[trigger] m@[k])@ == gm[k],
                rsum == row_max_sum(gm, i as int),
                rsum <= (i as int) * SIM_SCALE,
            decreases rows - i,
        {
            let row: &Vec<u64> = &m[i];
            let mut best: u64 = 0;
            let mut j: usize = 0;
            while j < cols
                invariant
                    j <= cols,
                    i < rows,
                    rows == gm.len(),
                    cols == gm[0].len(),
                    matrix_wf(gm),
                    m.deep_view() == gm,
                    forall|k: int| 0 <= k < m@.len() ==> (#[trigger] m@[k])@ == gm[k],
                    row@ == gm[i as int],
                    best == row_max(gm[i as int].take(j as int)),
                    best <= SIM_SCALE,
                decreases cols - j,
            {
                proof {
                    assert(gm[i as int].take(j + 1).drop_last() =~= gm[i as int].take(j as int));
                    assert(gm[i as int].take(j + 1).last() == gm[i as int][j as int]);
                }
                let v = row[j];
                if v > best {
                    best = v;
                }
                j += 1;
            }
            proof {
                assert(gm[i as int].take(cols as int) =~= gm[i as int]);
                lemma_row_max_range(gm[i as int]);
                assert((i as int) * SIM_SCALE + SIM_SCALE == (i + 1) * SIM_SCALE)
                    by (nonlinear_arith);
                assert((i + 1) * SIM_SCALE <= (MAX_TERMS as int) * SIM_SCALE) by (nonlinear_arith)
                    requires
                        i + 1 <= MAX_TERMS,
                ;
            }
            rsum = rsum + (best as u128);
            i += 1;
        }
        // sum of column maxima
        let mut csum: u128 = 0;
        let mut j: usize = 0;
        while j < cols
            invariant
                j <= cols,
                rows == gm.len(),
                cols == gm[0].len(),
                rows >= 1,
                cols >= 1,
                matrix_wf(gm),
                m.deep_view() == gm,
                forall|k: int| 0 <= k < m@.len() ==> (#[trigger] m@[k])@ == gm[k],
                csum == col_max_sum(gm, j as int),
                csum <= (j as int) * SIM_SCALE,
            decreases cols - j,
        {
            let mut best: u64 = 0;
            let mut i2: usize = 0;
            while i2 < rows
                invariant
                    i2 <= rows,
                    j < cols,
                    rows == gm.len(),
                    cols == gm[0].len(),
                    matrix_wf(gm),
                    m.deep_view() == gm,
                    forall|k: int| 0 <= k < m@.len() ==> (#[trigger] m@[k])@ == gm[k],
                    best == col_max(gm, j as int, i2 as int),
                    best <= SIM_SCALE,
                decreases rows - i2,
            {
                let v = m[i2][j];
                if v > best {
                    best = v;
                }
                i2 += 1;
            }
            proof {
                lemma_col_max_range(gm, j as int, rows as int);
                assert((j as int) * SIM_SCALE + SIM_SCALE == (j + 1) * SIM_SCALE)
                    by (nonlinear_arith);
                assert((j + 1) * SIM_SCALE <= (MAX_TERMS as int) * SIM_SCALE) by (nonlinear_arith)
                    requires
                        j + 1 <= MAX_TERMS,
                ;
            }
            csum = csum + (best as u128);
            j += 1;
        }
        proof {
            lemma_fun_sim_avg_range(gm);
            assert((rows as int) * SIM_SCALE * (MAX_TERMS as int) < u128::MAX)
                by (nonlinear_arith)
                requires
                    rows <= MAX_TERMS,
            ;
            assert((cols as int) * SIM_SCALE * (MAX_TERMS as int) < u128::MAX)
                by (nonlinear_arith)
                requires
                    cols <= MAX_TERMS,
            ;
            assert(rsum * (cols as int) <= (rows as int) * SIM_SCALE * (cols as int))
                by (nonlinear_arith)
                requires
                    0 <= rsum <= (rows as int) * SIM_SCALE,
                    cols >= 1,
            ;
            assert(csum * (rows as int) <= (cols as int) * SIM_SCALE * (rows as int))
                by (nonlinear_arith)
                requires
                    0 <= csum <= (cols as int) * SIM_SCALE,
                    rows >= 1,
            ;
            assert((rows as int) * SIM_SCALE * (cols as int) + (cols as int) * SIM_SCALE * (rows
                as int) < u128::MAX) by (nonlinear_arith)
                requires
                    rows <= MAX_TERMS,
                    cols <= MAX_TERMS,
            ;
            assert(2 * (rows as int) * (cols as int) <= 2 * (MAX_TERMS as int) * (MAX_TERMS
                as int) < u128::MAX) by (nonlinear_arith)
                requires
                    1 <= rows <= MAX_TERMS,
                    1 <= cols <= MAX_TERMS,
            ;
        }
        let num: u128 = rsum * (cols as u128) + csum * (rows as u128);
        let den: u128 = 2 * (rows as u128) * (cols as u128);
        proof {
            assert(2 * (rows as int) * (cols as int) >= 2) by (nonlinear_arith)
                requires
                    rows >= 1,
                    cols >= 1,
            ;
        }
        let q: u128 = num / den;
        proof {
            assert(q <= SIM_SCALE);
        }
        q as u64
    }
}

/// The fixed-point pairwise score of two resolvable terms: the similarity
/// rational scaled by `SIM_SCALE`, rounded down.
pub open spec fn pair_score(o: Ontology, a: u32, b: u32) -> u64 {
    ((sim_num(o, a, b) * SIM_SCALE) / sim_den(o, a, b)) as u64
}

/// The pairwise score matrix between two profiles: rows follow the query,
/// columns the target.
pub open spec fn matrix_spec(o: Ontology, q: Seq<u32>, t: Seq<u32>) -> Seq<Seq<u64>> {
    Seq::new(q.len(), |i: int| Seq::new(t.len(), |j: int| pair_score(o, q[i], t[j])))
}

/// Builds the pairwise score matrix of two profiles.
pub fn build_matrix(o: &Ontology, jac: &CustomJaccardIC, q: &TermSet, t: &TermSet) -> (m: Vec<
    Vec<u64>,
>)
    requires
        o.wf(),
        q.wf(),
        t.wf(),
        o.resolves_all(q@),
        o.resolves_all(t@),
    ensures
        m.deep_view() == matrix_spec(*o, q@, t@),
        matrix_wf(m.deep_view()),
{
    proof {
        lemma_resolvable_unique_len(*o, q@);
        lemma_resolvable_unique_len(*o, t@);
    }
    let nq = q.ids.len();
    let nt = t.ids.len();
    let mut m: Vec<Vec<u64>> = Vec::new();
    let mut i: usize = 0;
    while i < nq
        invariant
            i <= nq,
            nq == q@.len(),
            nt == t@.len(),
            o.wf(),
            q.wf(),
            t.wf(),
            o.resolves_all(q@),
            o.resolves_all(t@),
            m@.len() == i,
            forall|ii: int|
                0 <= ii < i ==> (#[trigger] m@[ii])@ == Seq::new(
                    t@.len(),
                    |j: int| pair_score(*o, q@[ii], t@[j]),
                ),
            forall|ii: int, jj: int|
                0 <= ii < i && 0 <= jj < nt ==> #[trigger] (m@[ii])@[jj] <= SIM_SCALE,
        decreases nq - i,
    {
        let mut row: Vec<u64> = Vec::new();
        let mut j: usize = 0;
        while j < nt
            invariant
                j <= nt,
                i < nq,
                nq == q@.len(),
                nt == t@.len(),
                o.wf(),
                q.wf(),
                t.wf(),
                o.resolves_all(q@),
                o.resolves_all(t@),
                row@.len() == j,
                forall|jj: int|
                    0 <= jj < j ==> #[trigger] row@[jj] == pair_score(*o, q@[i as int], t@[jj])
                        && row@[jj] <= SIM_SCALE,
            decreases nt - j,
        {
            let rat = jac.calculate(o, q.ids[i], t.ids[j]);
            let sc = rat.to_scaled();
            row.push(sc);
            j += 1;
        }
        proof {
            assert(row@ =~= Seq::new(t@.len(), |jj: int| pair_score(*o, q@[i as int], t@[jj])));
        }
        m.push(row);
        i += 1;
    }
    proof {
        assert(forall|ii: int| 0 <= ii < m@.len() ==> m.deep_view()[ii] == (#[trigger] m@[ii])@);
        assert(m.deep_view() =~~= matrix_spec(*o, q@, t@));
        assert forall|ii: int, jj: int|
            0 <= ii < nq && 0 <= jj < nt implies #[trigger] matrix_spec(*o, q@, t@)[ii][jj]
                <= SIM_SCALE by {
            assert(matrix_spec(*o, q@, t@)[ii][jj] == (m@[ii])@[jj]);
        }
    }
    m
}

/// The group similarity of a query profile against a target profile: the
/// pairwise score matrix reduced by the supplied aggregation strategy.
pub fn group_similarity<A: ScoreAggregator>(
    agg: &A,
    o: &Ontology,
    jac: &CustomJaccardIC,
    q: &TermSet,
    t: &TermSet,
) -> (r: u64)
    requires
        o.wf(),
        q.wf(),
        t.wf(),
        o.resolves_all(q@),
        o.resolves_all(t@),
    ensures
        r == A::spec_aggregate(matrix_spec(*o, q@, t@)),
        r <= SIM_SCALE,
{
    let m = build_matrix(o, jac, q, t);
    let r = agg.aggregate(&m);
    proof {
        A::aggregate_in_range(m.deep_view());
    }
    r
}

} // verus!
