//! Row-major matrices of bit patterns, given entry by entry.

use vstd::arithmetic::div_mod::lemma_fundamental_div_mod;
use vstd::prelude::*;

verus! {

/// The entry in row `i` and column `j`.
pub open spec fn at(m: Seq<u32>, cols: int, i: int, j: int) -> u32 {
    m[i * cols + j]
}

/// The `[rows, cols]` matrix has the entries that `f` gives.
pub open spec fn is_matrix(m: Seq<u32>, rows: int, cols: int, f: spec_fn(int, int) -> u32) -> bool {
    &&& m.len() == rows * cols
    &&& forall|i: int, j: int|
        0 <= i < rows && 0 <= j < cols ==> #[trigger] at(m, cols, i, j) == f(i, j)
}

/// Places of a matrix lie inside it, and in the order of rows and columns.
pub proof fn lemma_inside(rows: int, cols: int, i: int, j: int)
    requires
        0 <= i < rows,
        0 <= j < cols,
    ensures
        0 <= i * cols <= i * cols + j < i * cols + cols <= rows * cols,
{
    assert(0 <= i * cols && i * cols + cols <= rows * cols) by (nonlinear_arith)
        requires
            0 <= i < rows,
            0 <= j < cols,
    ;
}

/// A matrix is determined by its entries.
pub proof fn entries_determine_the_matrix(
    a: Seq<u32>,
    b: Seq<u32>,
    rows: int,
    cols: int,
    f: spec_fn(int, int) -> u32,
)
    requires
        0 <= rows,
        0 <= cols,
        is_matrix(a, rows, cols, f),
        is_matrix(b, rows, cols, f),
    ensures
        a == b,
{
    assert forall|k: int| 0 <= k < a.len() implies a[k] == b[k] by {
        if cols == 0 {
            assert(rows * cols == 0) by (nonlinear_arith)
                requires
                    cols == 0,
            ;
        }
        let (i, j) = (k / cols, k % cols);
        lemma_fundamental_div_mod(k, cols);
        assert(k == i * cols + j) by (nonlinear_arith)
            requires
                k == cols * (k / cols) + k % cols,
                i == k / cols,
                j == k % cols,
        ;
        assert(0 <= i < rows) by (nonlinear_arith)
            requires
                0 <= k < rows * cols,
                k == i * cols + j,
                0 <= j < cols,
        ;
        assert(at(a, cols, i, j) == at(b, cols, i, j));
    }
    assert(a =~= b);
}

/// Makes a matrix from its entries.
pub(crate) fn fill<F: Fn(usize, usize) -> u32>(
    rows: usize,
    cols: usize,
    entry: F,
    Ghost(f): Ghost<spec_fn(int, int) -> u32>,
) -> (m: Vec<u32>)
    requires
        forall|i: usize, j: usize| i < rows && j < cols ==> #[trigger] entry.requires((i, j)),
        forall|i: usize, j: usize, v: u32|
            i < rows && j < cols && #[trigger] entry.ensures((i, j), v) ==> v == f(
                i as int,
                j as int,
            ),
    ensures
        is_matrix(m@, rows as int, cols as int, f),
{
    let mut m: Vec<u32> = Vec::new();
    let ghost c = cols as int;
    let mut i: usize = 0;
    assert(0 * c == 0) by (nonlinear_arith);
    while i < rows
        invariant
            i <= rows,
            c == cols,
            forall|i: usize, j: usize| i < rows && j < cols ==> #[trigger] entry.requires((i, j)),
            forall|i: usize, j: usize, v: u32|
                i < rows && j < cols && #[trigger] entry.ensures((i, j), v) ==> v == f(
                    i as int,
                    j as int,
                ),
            is_matrix(m@, i as int, c, f),
        decreases rows - i,
    {
        let ghost above = m@;
        let mut j: usize = 0;
        while j < cols
            invariant
                i < rows,
                j <= cols,
                c == cols,
                forall|i: usize, j: usize| i < rows && j < cols ==> #[trigger] entry.requires((i, j)),
                forall|i: usize, j: usize, v: u32|
                    i < rows && j < cols && #[trigger] entry.ensures((i, j), v) ==> v == f(
                        i as int,
                        j as int,
                    ),
                is_matrix(above, i as int, c, f),
                m@.len() == above.len() + j,
                m@.take(above.len() as int) == above,
                forall|b: int| 0 <= b < j ==> #[trigger] m@[above.len() + b] == f(i as int, b),
            decreases cols - j,
        {
            let v: u32 = entry(i, j);
            assert(entry.ensures((i, j), v));
            let ghost before = m@;
            m.push(v);
            j = j + 1;
            assert(m@.take(above.len() as int) =~= before.take(above.len() as int));
        }
        proof {
            assert((i + 1) * c == i * c + c) by (nonlinear_arith);
            assert forall|a: int, b: int| 0 <= a < i + 1 && 0 <= b < c implies #[trigger] at(
                m@,
                c,
                a,
                b,
            ) == f(a, b) by {
                lemma_inside(i + 1, c, a, b);
                if a < i {
                    lemma_inside(i as int, c, a, b);
                    assert(at(above, c, a, b) == f(a, b));
                    assert(m@.take(above.len() as int)[a * c + b] == above[a * c + b]);
                } else {
                    assert(a * c == above.len());
                    assert(m@[above.len() + b] == f(i as int, b));
                }
            }
        }
        i = i + 1;
    }
    m
}

} // verus!
