//! Unit-cost Levenshtein distance with a configurable substitution cost.
use vstd::prelude::*;
use itertools::Itertools;
use crate::sequence::{Sequence, Token, tokens};

verus! {

/// What aligning `x` with `y` costs: nothing when they are equal, `sub_cost`
/// otherwise.
pub open spec fn substitution<V>(x: V, y: V, sub_cost: nat) -> nat {
    if x == y {
        0
    } else {
        sub_cost
    }
}

pub open spec fn min3(x: nat, y: nat, z: nat) -> nat {
    if x <= y && x <= z {
        x
    } else if y <= z {
        y
    } else {
        z
    }
}

/// The least total cost of turning `a` into `b` by deleting (cost 1),
/// inserting (cost 1) and substituting (cost `sub_cost`) elements.
pub open spec fn edit_distance<V>(a: Seq<V>, b: Seq<V>, sub_cost: nat) -> nat
    decreases a.len() + b.len(),
{
    if a.len() == 0 {
        b.len()
    } else if b.len() == 0 {
        a.len()
    } else {
        min3(
            edit_distance(a.drop_last(), b, sub_cost) + 1,
            edit_distance(a, b.drop_last(), sub_cost) + 1,
            edit_distance(a.drop_last(), b.drop_last(), sub_cost) + substitution(
                a.last(),
                b.last(),
                sub_cost,
            ),
        )
    }
}

/// Cell `(i, j)` of the cost matrix: the distance between the first `i`
/// elements of `a` and the first `j` elements of `b`.
pub open spec fn prefix_distance<V>(a: Seq<V>, b: Seq<V>, sub_cost: nat, i: int, j: int) -> nat {
    edit_distance(a.take(i), b.take(j), sub_cost)
}

/// The border and recurrence of the cost matrix.
pub proof fn lemma_prefix_distance_step<V>(a: Seq<V>, b: Seq<V>, sub_cost: nat, i: int, j: int)
    requires
        0 <= i <= a.len(),
        0 <= j <= b.len(),
    ensures
        i == 0 ==> prefix_distance(a, b, sub_cost, i, j) == j,
        j == 0 ==> prefix_distance(a, b, sub_cost, i, j) == i,
        i > 0 && j > 0 ==> prefix_distance(a, b, sub_cost, i, j) == min3(
            prefix_distance(a, b, sub_cost, i - 1, j) + 1,
            prefix_distance(a, b, sub_cost, i, j - 1) + 1,
            prefix_distance(a, b, sub_cost, i - 1, j - 1) + substitution(
                a[i - 1],
                b[j - 1],
                sub_cost,
            ),
        ),
{
    if i > 0 && j > 0 {
        assert(a.take(i).drop_last() =~= a.take(i - 1));
        assert(b.take(j).drop_last() =~= b.take(j - 1));
    }
}

/// The distance never exceeds deleting everything and inserting everything.
pub proof fn lemma_distance_upper_bound<V>(a: Seq<V>, b: Seq<V>, sub_cost: nat)
    ensures
        edit_distance(a, b, sub_cost) <= a.len() + b.len(),
    decreases a.len() + b.len(),
{
    if a.len() > 0 && b.len() > 0 {
        lemma_distance_upper_bound(a.drop_last(), b, sub_cost);
    }
}

/// The distance is at least the difference of the lengths.
pub proof fn lemma_distance_lower_bound<V>(a: Seq<V>, b: Seq<V>, sub_cost: nat)
    ensures
        edit_distance(a, b, sub_cost) >= a.len() - b.len(),
        edit_distance(a, b, sub_cost) >= b.len() - a.len(),
    decreases a.len() + b.len(),
{
    if a.len() > 0 && b.len() > 0 {
        lemma_distance_lower_bound(a.drop_last(), b, sub_cost);
        lemma_distance_lower_bound(a, b.drop_last(), sub_cost);
        lemma_distance_lower_bound(a.drop_last(), b.drop_last(), sub_cost);
    }
}

/// Symmetry: turning `a` into `b` costs what turning `b` into `a` costs.
pub proof fn lemma_distance_symmetric<V>(a: Seq<V>, b: Seq<V>, sub_cost: nat)
    ensures
        edit_distance(a, b, sub_cost) == edit_distance(b, a, sub_cost),
    decreases a.len() + b.len(),
{
    if a.len() > 0 && b.len() > 0 {
        lemma_distance_symmetric(a.drop_last(), b, sub_cost);
        lemma_distance_symmetric(a, b.drop_last(), sub_cost);
        lemma_distance_symmetric(a.drop_last(), b.drop_last(), sub_cost);
    }
}

/// A sequence is at distance zero from itself, and at distance its length
/// from the empty sequence, on either side.
pub proof fn lemma_distance_identity<V>(a: Seq<V>, sub_cost: nat)
    ensures
        edit_distance(a, a, sub_cost) == 0,
        edit_distance(Seq::<V>::empty(), a, sub_cost) == a.len(),
        edit_distance(a, Seq::<V>::empty(), sub_cost) == a.len(),
    decreases a.len(),
{
    if a.len() > 0 {
        lemma_distance_identity(a.drop_last(), sub_cost);
    }
}

/// Triangle inequality: going from `a` to `c` costs no more than going
/// through `b`.
pub proof fn lemma_distance_triangle<V>(a: Seq<V>, b: Seq<V>, c: Seq<V>, sub_cost: nat)
    ensures
        edit_distance(a, c, sub_cost) <= edit_distance(a, b, sub_cost) + edit_distance(
            b,
            c,
            sub_cost,
        ),
    decreases a.len() + b.len() + c.len(),
{
    if a.len() == 0 {
        lemma_distance_lower_bound(b, c, sub_cost);
    } else if c.len() == 0 {
        lemma_distance_lower_bound(a, b, sub_cost);
    } else if b.len() == 0 {
        lemma_distance_upper_bound(a, c, sub_cost);
    } else {
        let a1 = a.drop_last();
        let b1 = b.drop_last();
        let c1 = c.drop_last();
        let ab = edit_distance(a, b, sub_cost);
        let bc = edit_distance(b, c, sub_cost);
        if ab == edit_distance(a1, b, sub_cost) + 1 {
            lemma_distance_triangle(a1, b, c, sub_cost);
        } else if bc == edit_distance(b, c1, sub_cost) + 1 {
            lemma_distance_triangle(a, b, c1, sub_cost);
        } else if ab == edit_distance(a, b1, sub_cost) + 1 {
            if bc == edit_distance(b1, c, sub_cost) + 1 {
                lemma_distance_triangle(a, b1, c, sub_cost);
            } else {
                lemma_distance_triangle(a, b1, c1, sub_cost);
            }
        } else {
            if bc == edit_distance(b1, c, sub_cost) + 1 {
                lemma_distance_triangle(a1, b1, c, sub_cost);
            } else {
                lemma_distance_triangle(a1, b1, c1, sub_cost);
            }
        }
    }
}

/// The cell that follows `cell` when the interior of a matrix with
/// `num_cols` columns is walked row by row.
pub open spec fn next_cell(cell: (usize, usize), num_cols: usize) -> (usize, usize) {
    if cell.1 + 1 < num_cols {
        (cell.0, (cell.1 + 1) as usize)
    } else {
        ((cell.0 + 1) as usize, 1usize)
    }
}

/// Relies on itertools' `cartesian_product` of `1..num_rows` with
/// `1..num_cols`: every row index paired with every column index, rows
/// outermost, both ascending.
#[verifier::external_body]
fn interior_cells(num_rows: usize, num_cols: usize) -> (r: Vec<(usize, usize)>)
    ensures
        r.len() == 0 <==> (num_rows <= 1 || num_cols <= 1),
        r.len() > 0 ==> r@[0] == (1usize, 1usize) && r@.last() == (
            (num_rows - 1) as usize,
            (num_cols - 1) as usize,
        ),
        forall|k: int|
            0 <= k < r.len() ==> 1 <= (#[trigger] r@[k]).0 < num_rows && 1 <= r@[k].1 < num_cols,
        forall|k: int| 0 <= k < r.len() - 1 ==> #[trigger] r@[k + 1] == next_cell(r@[k], num_cols),
{
    (1..num_rows).cartesian_product(1..num_cols).collect()
}

/// Whether `(i, j)` comes before `cell` in row-by-row order.
pub open spec fn precedes(i: int, j: int, cell: (usize, usize)) -> bool {
    i < cell.0 || (i == cell.0 && j < cell.1)
}

/// `mat` is the full cost matrix of `a` against `b`.
pub open spec fn is_cost_matrix<V>(mat: Seq<Vec<usize>>, a: Seq<V>, b: Seq<V>, sub_cost: nat) -> bool {
    &&& mat.len() == a.len() + 1
    &&& forall|i: int| 0 <= i < mat.len() ==> (#[trigger] mat[i]).len() == b.len() + 1
    &&& forall|i: int, j: int|
        0 <= i <= a.len() && 0 <= j <= b.len() ==> #[trigger] mat[i]@[j] == prefix_distance(
            a,
            b,
            sub_cost,
            i,
            j,
        )
}

/// Builds the `(len1 + 1) x (len2 + 1)` matrix whose cell `(i, j)` holds the
/// distance between the first `i` elements of `graphemes1` and the first `j`
/// of `graphemes2`.
pub(crate) fn levenshtein_distance_recurrence_matrix<S: Sequence>(
    graphemes1: &S,
    graphemes2: &S,
    sub_cost: usize,
) -> (mat: Vec<Vec<usize>>)
    requires
        graphemes1.items().len() + graphemes2.items().len() < usize::MAX,
    ensures
        is_cost_matrix(mat@, tokens(graphemes1), tokens(graphemes2), sub_cost as nat),
{
    let ghost a = tokens(graphemes1);
    let ghost b = tokens(graphemes2);
    let num_rows = graphemes1.length() + 1;
    let num_cols = graphemes2.length() + 1;
    // graphemes1 indexes the rows, graphemes2 the columns; the borders hold
    // pure deletions and pure insertions.
    let mut mat: Vec<Vec<usize>> = Vec::new();
    let mut row: usize = 0;
    while row < num_rows
        invariant
            num_rows == a.len() + 1,
            num_cols == b.len() + 1,
            row <= num_rows,
            mat.len() == row,
            forall|i: int| 0 <= i < row ==> (#[trigger] mat@[i]).len() == num_cols,
            forall|i: int, j: int|
                0 <= i < row && 0 <= j < num_cols && (i == 0 || j == 0) ==> #[trigger] mat@[i]@[j]
                    == (if i == 0 {
                    j
                } else {
                    i
                }),
        decreases num_rows - row,
    {
        let mut line: Vec<usize> = Vec::new();
        let mut col: usize = 0;
        while col < num_cols
            invariant
                col <= num_cols,
                line.len() == col,
                forall|j: int|
                    0 <= j < col && (row == 0 || j == 0) ==> #[trigger] line@[j] == (if row == 0 {
                        j
                    } else {
                        row as int
                    }),
            decreases num_cols - col,
        {
            if row == 0 {
                line.push(col);
            } else if col == 0 {
                line.push(row);
            } else {
                line.push(0);
            }
            col = col + 1;
        }
        mat.push(line);
        row = row + 1;
    }
    proof {
        assert forall|i: int, j: int|
            0 <= i <= a.len() && 0 <= j <= b.len() && (i == 0 || j == 0) implies #[trigger] mat@[i]@[j]
            == prefix_distance(a, b, sub_cost as nat, i, j) by {
            lemma_prefix_distance_step(a, b, sub_cost as nat, i, j);
        }
    }
    let cells = interior_cells(num_rows, num_cols);
    let mut k: usize = 0;
    while k < cells.len()
        invariant
            num_rows == a.len() + 1,
            num_cols == b.len() + 1,
            a.len() + b.len() < usize::MAX,
            a == tokens(graphemes1),
            b == tokens(graphemes2),
            k <= cells.len(),
            cells.len() == 0 <==> (num_rows <= 1 || num_cols <= 1),
            cells.len() > 0 ==> cells@.last() == ((num_rows - 1) as usize, (num_cols - 1) as usize),
            forall|t: int|
                0 <= t < cells.len() ==> 1 <= (#[trigger] cells@[t]).0 < num_rows && 1
                    <= cells@[t].1 < num_cols,
            forall|t: int|
                0 <= t < cells.len() - 1 ==> #[trigger] cells@[t + 1] == next_cell(
                    cells@[t],
                    num_cols,
                ),
            k < cells.len() ==> (k == 0 ==> cells@[0] == (1usize, 1usize)),
            mat.len() == num_rows,
            forall|i: int| 0 <= i < num_rows ==> (#[trigger] mat@[i]).len() == num_cols,
            forall|i: int, j: int|
                0 <= i < num_rows && 0 <= j < num_cols && (i == 0 || j == 0 || k == cells.len()
                    || precedes(i, j, cells@[k as int])) ==> #[trigger] mat@[i]@[j]
                    == prefix_distance(a, b, sub_cost as nat, i, j),
        decreases cells.len() - k,
    {
        let (row, col) = cells[k];
        proof {
            lemma_prefix_distance_step(a, b, sub_cost as nat, row as int, col as int);
            lemma_distance_upper_bound(a.take(row - 1), b.take(col as int), sub_cost as nat);
            lemma_distance_upper_bound(a.take(row as int), b.take(col - 1), sub_cost as nat);
        }
        let deletion = mat[row - 1][col] + 1;
        let insertion = mat[row][col - 1] + 1;
        let step = if graphemes1.at(row - 1).same(graphemes2.at(col - 1)) {
            0
        } else {
            sub_cost
        };
        let substitution = mat[row - 1][col - 1].saturating_add(step);
        let mut best = if insertion < deletion {
            insertion
        } else {
            deletion
        };
        if substitution < best {
            best = substitution;
        }
        mat[row][col] = best;
        k = k + 1;
    }
    mat
}

/// The distance between `graphemes1` and `graphemes2` under unit insertion
/// and deletion cost and substitution cost `sub_cost`. The two lengths must
/// add up to less than `usize::MAX`, since the distance can reach their sum.
pub fn levenshtein_distance<S: Sequence>(graphemes1: &S, graphemes2: &S, sub_cost: usize) -> (r:
    usize)
    requires
        graphemes1.items().len() + graphemes2.items().len() < usize::MAX,
    ensures
        r == edit_distance(tokens(graphemes1), tokens(graphemes2), sub_cost as nat),
{
    let mat = levenshtein_distance_recurrence_matrix(graphemes1, graphemes2, sub_cost);
    proof {
        assert(tokens(graphemes1).take(tokens(graphemes1).len() as int) =~= tokens(graphemes1));
        assert(tokens(graphemes2).take(tokens(graphemes2).len() as int) =~= tokens(graphemes2));
    }
    mat[graphemes1.length()][graphemes2.length()]
}

} // verus!
