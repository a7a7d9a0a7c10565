//! Optimal alignments: the move chosen at each cell of the cost matrix, the
//! path recovered from those moves, and the two padded sequences it yields.
use vstd::prelude::*;
use crate::sequence::{Sequence, Token, tokens};
use crate::distance::{
    edit_distance,
    is_cost_matrix,
    lemma_distance_upper_bound,
    lemma_prefix_distance_step,
    levenshtein_distance_recurrence_matrix,
    prefix_distance,
    substitution,
};

verus! {

/// The neighbour from which a cell of the cost matrix takes its minimum.
#[derive(Clone, Copy, Debug, PartialEq, Eq)]
pub enum Move {
    /// The origin, where both prefixes are empty.
    Start,
    /// From the left: an element of the second sequence is inserted.
    Insertion,
    /// From above: an element of the first sequence is deleted.
    Deletion,
    /// From the upper left: two elements are matched or substituted.
    Diagonal,
}

/// The move recorded at cell `(i, j)`. On the borders it follows the border;
/// inside, an insertion is preferred, then a deletion, then the diagonal, and
/// a later candidate wins only when strictly cheaper.
pub open spec fn chosen_move<V>(a: Seq<V>, b: Seq<V>, sub_cost: nat, i: int, j: int) -> Move {
    if i == 0 && j == 0 {
        Move::Start
    } else if i == 0 {
        Move::Insertion
    } else if j == 0 {
        Move::Deletion
    } else {
        let insertion = prefix_distance(a, b, sub_cost, i, j - 1) + 1;
        let deletion = prefix_distance(a, b, sub_cost, i - 1, j) + 1;
        let diagonal = prefix_distance(a, b, sub_cost, i - 1, j - 1) + substitution(
            a[i - 1],
            b[j - 1],
            sub_cost,
        );
        let best = if deletion < insertion {
            deletion
        } else {
            insertion
        };
        if diagonal < best {
            Move::Diagonal
        } else if deletion < insertion {
            Move::Deletion
        } else {
            Move::Insertion
        }
    }
}

/// The moves of every cell of the `(len(a) + 1) x (len(b) + 1)` matrix.
pub open spec fn move_table<V>(a: Seq<V>, b: Seq<V>, sub_cost: nat) -> Seq<Seq<Move>> {
    Seq::new(
        a.len() + 1,
        |i: int| Seq::new(b.len() + 1, |j: int| chosen_move(a, b, sub_cost, i, j)),
    )
}

pub open spec fn moves_view(m: Seq<Vec<Move>>) -> Seq<Seq<Move>> {
    m.map_values(|row: Vec<Move>| row@)
}

pub open spec fn coords(v: Seq<(usize, usize)>) -> Seq<(int, int)> {
    v.map_values(|c: (usize, usize)| (c.0 as int, c.1 as int))
}

/// Every row of `table` has the same length, and no move leads out of it.
pub open spec fn well_formed_moves(table: Seq<Seq<Move>>) -> bool {
    &&& table.len() > 0
    &&& forall|i: int| 0 <= i < table.len() ==> (#[trigger] table[i]).len() == table[0].len()
    &&& forall|i: int, j: int|
        0 <= i < table.len() && 0 <= j < table[i].len() ==> {
            let mv = #[trigger] table[i][j];
            &&& (mv is Insertion ==> j > 0)
            &&& (mv is Deletion ==> i > 0)
            &&& (mv is Diagonal ==> i > 0 && j > 0)
        }
}

/// The cells met when following the moves of `table` back from `(i, j)`,
/// up to and including the first one that leads nowhere.
pub open spec fn walk_back(table: Seq<Seq<Move>>, i: nat, j: nat) -> Seq<(int, int)>
    decreases i + j,
{
    let here = seq![(i as int, j as int)];
    if i < table.len() && j < table[i as int].len() {
        let mv = table[i as int][j as int];
        if mv is Insertion && j > 0 {
            here + walk_back(table, i, (j - 1) as nat)
        } else if mv is Deletion && i > 0 {
            here + walk_back(table, (i - 1) as nat, j)
        } else if mv is Diagonal && i > 0 && j > 0 {
            here + walk_back(table, (i - 1) as nat, (j - 1) as nat)
        } else {
            here
        }
    } else {
        here
    }
}

/// The cell that `mv` leads back to from `(i, j)`.
pub open spec fn predecessor(cell: (int, int), mv: Move) -> (int, int) {
    match mv {
        Move::Insertion => (cell.0, cell.1 - 1),
        Move::Deletion => (cell.0 - 1, cell.1),
        Move::Diagonal => (cell.0 - 1, cell.1 - 1),
        Move::Start => cell,
    }
}

/// Step `s` of the walk `w` is a move other than `Start` and goes to the
/// cell that this move names.
pub open spec fn steps_back<V>(a: Seq<V>, b: Seq<V>, sub_cost: nat, w: Seq<(int, int)>, s: int) -> bool {
    let mv = chosen_move(a, b, sub_cost, w[s].0, w[s].1);
    &&& !(mv is Start)
    &&& w[s + 1] == predecessor(w[s], mv)
}

/// The optimal alignment path from `(0, 0)` to `(len(a), len(b))`.
pub open spec fn alignment_trace<V>(a: Seq<V>, b: Seq<V>, sub_cost: nat) -> Seq<(int, int)> {
    walk_back(move_table(a, b, sub_cost), a.len(), b.len()).reverse()
}

/// The two padded sequences that the moves back from `(i, j)` spell out,
/// with `gap` on the side that consumes no element.
pub open spec fn alignment<V>(a: Seq<V>, b: Seq<V>, sub_cost: nat, gap: V, i: nat, j: nat) -> (
    Seq<V>,
    Seq<V>,
)
    decreases i + j,
{
    let mv = chosen_move(a, b, sub_cost, i as int, j as int);
    if mv is Diagonal && i > 0 && j > 0 {
        let p = alignment(a, b, sub_cost, gap, (i - 1) as nat, (j - 1) as nat);
        (p.0.push(a[i - 1]), p.1.push(b[j - 1]))
    } else if mv is Insertion && j > 0 {
        let p = alignment(a, b, sub_cost, gap, i, (j - 1) as nat);
        (p.0.push(gap), p.1.push(b[j - 1]))
    } else if mv is Deletion && i > 0 {
        let p = alignment(a, b, sub_cost, gap, (i - 1) as nat, j);
        (p.0.push(a[i - 1]), p.1.push(gap))
    } else {
        (Seq::empty(), Seq::empty())
    }
}

/// What two padded sequences cost position by position: 1 where either side
/// is `gap`, `sub_cost` where two different elements face each other.
pub open spec fn alignment_cost<V>(x: Seq<V>, y: Seq<V>, gap: V, sub_cost: nat) -> nat
    decreases x.len(),
{
    if x.len() == 0 || y.len() == 0 {
        0
    } else {
        alignment_cost(x.drop_last(), y.drop_last(), gap, sub_cost) + (if x.last() == gap
            || y.last() == gap {
            1
        } else {
            substitution(x.last(), y.last(), sub_cost)
        })
    }
}

/// The move chosen at a cell reaches its minimum.
proof fn lemma_chosen_move_is_optimal<V>(a: Seq<V>, b: Seq<V>, sub_cost: nat, i: int, j: int)
    requires
        0 <= i <= a.len(),
        0 <= j <= b.len(),
    ensures
        ({
            let mv = chosen_move(a, b, sub_cost, i, j);
            let d = prefix_distance(a, b, sub_cost, i, j);
            &&& mv is Start <==> (i == 0 && j == 0)
            &&& mv is Insertion ==> j > 0 && d == prefix_distance(a, b, sub_cost, i, j - 1) + 1
            &&& mv is Deletion ==> i > 0 && d == prefix_distance(a, b, sub_cost, i - 1, j) + 1
            &&& mv is Diagonal ==> i > 0 && j > 0 && d == prefix_distance(
                a,
                b,
                sub_cost,
                i - 1,
                j - 1,
            ) + substitution(a[i - 1], b[j - 1], sub_cost)
        }),
{
    lemma_prefix_distance_step(a, b, sub_cost, i, j);
    if i > 0 && j == 0 {
        lemma_prefix_distance_step(a, b, sub_cost, i - 1, j);
    }
    if i == 0 && j > 0 {
        lemma_prefix_distance_step(a, b, sub_cost, i, j - 1);
    }
}

/// Following the chosen moves back from `(i, j)` reaches the origin, each
/// step going to the predecessor that the move names and staying inside the
/// matrix.
pub proof fn lemma_walk_back<V>(a: Seq<V>, b: Seq<V>, sub_cost: nat, i: nat, j: nat)
    requires
        i <= a.len(),
        j <= b.len(),
    ensures
        walk_back(move_table(a, b, sub_cost), i, j).len() >= 1,
        walk_back(move_table(a, b, sub_cost), i, j)[0] == (i as int, j as int),
        walk_back(move_table(a, b, sub_cost), i, j).last() == (0int, 0int),
        forall|s: int|
            0 <= s < walk_back(move_table(a, b, sub_cost), i, j).len() ==> 0 <= (#[trigger] walk_back(
                move_table(a, b, sub_cost),
                i,
                j,
            )[s]).0 <= i && 0 <= walk_back(move_table(a, b, sub_cost), i, j)[s].1 <= j,
        forall|s: int|
            0 <= s < walk_back(move_table(a, b, sub_cost), i, j).len() - 1 ==> #[trigger] steps_back(
                a,
                b,
                sub_cost,
                walk_back(move_table(a, b, sub_cost), i, j),
                s,
            ),
    decreases i + j,
{
    let table = move_table(a, b, sub_cost);
    let w = walk_back(table, i, j);
    let mv = chosen_move(a, b, sub_cost, i as int, j as int);
    lemma_chosen_move_is_optimal(a, b, sub_cost, i as int, j as int);
    assert(table[i as int][j as int] == mv);
    if mv is Start {
        assert(w =~= seq![(0int, 0int)]);
    } else {
        let p = predecessor((i as int, j as int), mv);
        let pi = p.0 as nat;
        let pj = p.1 as nat;
        lemma_walk_back(a, b, sub_cost, pi, pj);
        let rest = walk_back(table, pi, pj);
        assert(w =~= seq![(i as int, j as int)] + rest);
        assert forall|s: int| 0 <= s < w.len() implies 0 <= (#[trigger] w[s]).0 <= i && 0 <= w[s].1
            <= j by {
            if s > 0 {
                assert(w[s] == rest[s - 1]);
            }
        }
        assert forall|s: int| 0 <= s < w.len() - 1 implies #[trigger] steps_back(
            a,
            b,
            sub_cost,
            w,
            s,
        ) by {
            if s > 0 {
                assert(steps_back(a, b, sub_cost, rest, s - 1));
                assert(w[s] == rest[s - 1]);
                assert(w[s + 1] == rest[(s - 1) + 1]);
            }
        }
    }
}

/// Aligning the first `i` elements of `a` with the first `j` of `b` gives two
/// sequences of one length whose position-by-position cost is the distance,
/// provided `gap` occurs in neither sequence.
pub proof fn lemma_alignment_cost<V>(
    a: Seq<V>,
    b: Seq<V>,
    sub_cost: nat,
    gap: V,
    i: nat,
    j: nat,
)
    requires
        i <= a.len(),
        j <= b.len(),
        !a.contains(gap),
        !b.contains(gap),
    ensures
        alignment(a, b, sub_cost, gap, i, j).0.len() == alignment(a, b, sub_cost, gap, i, j).1.len(),
        alignment_cost(
            alignment(a, b, sub_cost, gap, i, j).0,
            alignment(a, b, sub_cost, gap, i, j).1,
            gap,
            sub_cost,
        ) == prefix_distance(a, b, sub_cost, i as int, j as int),
    decreases i + j,
{
    let mv = chosen_move(a, b, sub_cost, i as int, j as int);
    lemma_chosen_move_is_optimal(a, b, sub_cost, i as int, j as int);
    if mv is Start {
        lemma_prefix_distance_step(a, b, sub_cost, i as int, j as int);
    } else {
        let p = predecessor((i as int, j as int), mv);
        lemma_alignment_cost(a, b, sub_cost, gap, p.0 as nat, p.1 as nat);
        let q = alignment(a, b, sub_cost, gap, p.0 as nat, p.1 as nat);
        let r = alignment(a, b, sub_cost, gap, i, j);
        assert(r.0.drop_last() =~= q.0);
        assert(r.1.drop_last() =~= q.1);
        if mv is Diagonal {
            assert(a.contains(a[i - 1]) && b.contains(b[j - 1]));
        } else if mv is Insertion {
            assert(b.contains(b[j - 1]));
        } else {
            assert(a.contains(a[i - 1]));
        }
    }
}

/// The moves of every cell of the cost matrix of `graphemes1` against
/// `graphemes2`.
fn alignment_matrix<S: Sequence>(graphemes1: &S, graphemes2: &S, sub_cost: usize) -> (moves: Vec<
    Vec<Move>,
>)
    requires
        graphemes1.items().len() + graphemes2.items().len() < usize::MAX,
    ensures
        moves_view(moves@) == move_table(tokens(graphemes1), tokens(graphemes2), sub_cost as nat),
{
    let ghost a = tokens(graphemes1);
    let ghost b = tokens(graphemes2);
    let costs = levenshtein_distance_recurrence_matrix(graphemes1, graphemes2, sub_cost);
    let num_rows = graphemes1.length() + 1;
    let num_cols = graphemes2.length() + 1;
    let mut moves: Vec<Vec<Move>> = Vec::new();
    let mut row: usize = 0;
    while row < num_rows
        invariant
            num_rows == a.len() + 1,
            num_cols == b.len() + 1,
            a.len() + b.len() < usize::MAX,
            a == tokens(graphemes1),
            b == tokens(graphemes2),
            is_cost_matrix(costs@, a, b, sub_cost as nat),
            row <= num_rows,
            moves.len() == row,
            forall|i: int| 0 <= i < row ==> (#[trigger] moves@[i])@ == move_table(a, b, sub_cost as nat)[i],
        decreases num_rows - row,
    {
        let mut line: Vec<Move> = Vec::new();
        let mut col: usize = 0;
        while col < num_cols
            invariant
                num_rows == a.len() + 1,
                num_cols == b.len() + 1,
                a.len() + b.len() < usize::MAX,
                a == tokens(graphemes1),
                b == tokens(graphemes2),
                is_cost_matrix(costs@, a, b, sub_cost as nat),
                row < num_rows,
                col <= num_cols,
                line.len() == col,
                forall|j: int|
                    0 <= j < col ==> #[trigger] line@[j] == chosen_move(a, b, sub_cost as nat, row as int, j),
            decreases num_cols - col,
        {
            let mv = if row == 0 && col == 0 {
                Move::Start
            } else if row == 0 {
                Move::Insertion
            } else if col == 0 {
                Move::Deletion
            } else {
                proof {
                    lemma_distance_upper_bound(a.take(row - 1), b.take(col as int), sub_cost as nat);
                    lemma_distance_upper_bound(a.take(row as int), b.take(col - 1), sub_cost as nat);
                }
                let mut min_distance = costs[row][col - 1] + 1;
                let mut min_move = Move::Insertion;
                let current_del_cost = costs[row - 1][col] + 1;
                if current_del_cost < min_distance {
                    min_distance = current_del_cost;
                    min_move = Move::Deletion;
                }
                let step = if graphemes1.at(row - 1).same(graphemes2.at(col - 1)) {
                    0
                } else {
                    sub_cost
                };
                let current_sub_cost = costs[row - 1][col - 1].saturating_add(step);
                if current_sub_cost < min_distance {
                    min_move = Move::Diagonal;
                }
                min_move
            };
            line.push(mv);
            col = col + 1;
        }
        proof {
            assert(line@ =~= move_table(a, b, sub_cost as nat)[row as int]);
        }
        moves.push(line);
        row = row + 1;
    }
    proof {
        assert(moves_view(moves@) =~= move_table(a, b, sub_cost as nat));
    }
    moves
}

/// Follows the moves of `backtrace` from `start_coord` back to the origin and
/// returns the cells met, starting with `start_coord`.
fn backtrace_alignment_matrix(start_coord: (usize, usize), backtrace: &Vec<Vec<Move>>) -> (path:
    Vec<(usize, usize)>)
    requires
        well_formed_moves(moves_view(backtrace@)),
        start_coord.0 < backtrace.len(),
        start_coord.1 < backtrace@[0].len(),
    ensures
        coords(path@) == walk_back(
            moves_view(backtrace@),
            start_coord.0 as nat,
            start_coord.1 as nat,
        ),
{
    let ghost table = moves_view(backtrace@);
    let mut path: Vec<(usize, usize)> = Vec::new();
    let mut backtracing_coord = start_coord;
    loop
        invariant_except_break
            coords(path@) + walk_back(
                table,
                backtracing_coord.0 as nat,
                backtracing_coord.1 as nat,
            ) == walk_back(table, start_coord.0 as nat, start_coord.1 as nat),
        invariant
            well_formed_moves(table),
            table == moves_view(backtrace@),
            backtracing_coord.0 < backtrace.len(),
            backtracing_coord.1 < backtrace@[0].len(),
        ensures
            coords(path@) == walk_back(table, start_coord.0 as nat, start_coord.1 as nat),
        decreases backtracing_coord.0 + backtracing_coord.1,
    {
        let (row, col) = backtracing_coord;
        let ghost before = coords(path@);
        assert(table[row as int].len() == table[0].len());
        let mv = backtrace[row][col];
        path.push(backtracing_coord);
        proof {
            assert(coords(path@) =~= before.push((row as int, col as int)));
        }
        match mv {
            Move::Start => {
                proof {
                    assert(walk_back(table, row as nat, col as nat) =~= seq![(row as int, col as int)]);
                }
                break ;
            },
            Move::Insertion => {
                backtracing_coord = (row, col - 1);
            },
            Move::Deletion => {
                backtracing_coord = (row - 1, col);
            },
            Move::Diagonal => {
                backtracing_coord = (row - 1, col - 1);
            },
        }
        proof {
            let next = walk_back(table, backtracing_coord.0 as nat, backtracing_coord.1 as nat);
            assert(walk_back(table, row as nat, col as nat) =~= seq![(row as int, col as int)]
                + next);
            assert(coords(path@) + next =~= before + walk_back(table, row as nat, col as nat));
        }
    }
    path
}

/// One optimal alignment path, as the cells `(row, col)` it visits from
/// `(0, 0)` to `(len1, len2)`.
pub fn alignment_path<S: Sequence>(graphemes1: &S, graphemes2: &S, sub_cost: usize) -> (path: Vec<
    (usize, usize),
>)
    requires
        graphemes1.items().len() + graphemes2.items().len() < usize::MAX,
    ensures
        coords(path@) == alignment_trace(tokens(graphemes1), tokens(graphemes2), sub_cost as nat),
{
    let ghost a = tokens(graphemes1);
    let ghost b = tokens(graphemes2);
    let mat = alignment_matrix(graphemes1, graphemes2, sub_cost);
    proof {
        let table = moves_view(mat@);
        assert(table.len() == a.len() + 1);
        assert forall|i: int, j: int|
            0 <= i < table.len() && 0 <= j < table[i].len() implies {
            let mv = #[trigger] table[i][j];
            &&& (mv is Insertion ==> j > 0)
            &&& (mv is Deletion ==> i > 0)
            &&& (mv is Diagonal ==> i > 0 && j > 0)
        } by {
            lemma_chosen_move_is_optimal(a, b, sub_cost as nat, i, j);
        }
        assert(well_formed_moves(table));
        assert(table[0].len() == b.len() + 1);
        assert(mat@[0]@ == table[0]);
    }
    let backward = backtrace_alignment_matrix((graphemes1.length(), graphemes2.length()), &mat);
    let mut path: Vec<(usize, usize)> = Vec::new();
    let mut t: usize = backward.len();
    while t > 0
        invariant
            t <= backward.len(),
            path.len() == backward.len() - t,
            forall|s: int|
                0 <= s < path.len() ==> #[trigger] path@[s] == backward@[backward.len() - 1 - s],
        decreases t,
    {
        t = t - 1;
        path.push(backward[t]);
    }
    proof {
        assert(coords(path@) =~= coords(backward@).reverse());
    }
    path
}

/// Aligns `graphemes1` with `graphemes2` along `alignment_path`: two
/// sequences of one length, in input order, with `ins_del_char` on
/// the side that has no element at an insertion or a deletion.
pub fn alignment_strings<S: Sequence>(
    graphemes1: &S,
    graphemes2: &S,
    sub_cost: usize,
    ins_del_char: S::Item,
) -> (r: [S; 2])
    requires
        graphemes1.items().len() + graphemes2.items().len() < usize::MAX,
    ensures
        (tokens(&r[0]), tokens(&r[1])) == alignment(
            tokens(graphemes1),
            tokens(graphemes2),
            sub_cost as nat,
            ins_del_char@,
            graphemes1.items().len(),
            graphemes2.items().len(),
        ),
{
    let ghost a = tokens(graphemes1);
    let ghost b = tokens(graphemes2);
    let ghost gap = ins_del_char@;
    let ghost k = sub_cost as nat;
    let path = alignment_path(graphemes1, graphemes2, sub_cost);
    let ghost p = coords(path@);
    proof {
        lemma_walk_back(a, b, k, a.len(), b.len());
    }
    let ghost w = walk_back(move_table(a, b, k), a.len(), b.len());
    assert(p =~= w.reverse());
    assert(p.len() == path.len());
    assert(p[0] == w.last());
    let mut align_graphemes1 = S::empty();
    let mut align_graphemes2 = S::empty();
    proof {
        assert(tokens(&align_graphemes1) =~= Seq::<<S::Item as View>::V>::empty());
        assert(tokens(&align_graphemes2) =~= Seq::<<S::Item as View>::V>::empty());
    }
    let mut prev_coord = path[0];
    let mut t: usize = 1;
    while t < path.len()
        invariant
            a == tokens(graphemes1),
            b == tokens(graphemes2),
            gap == ins_del_char@,
            k == sub_cost as nat,
            p == coords(path@),
            p == w.reverse(),
            w == walk_back(move_table(a, b, k), a.len(), b.len()),
            w.len() >= 1,
            w.last() == (0int, 0int),
            w[0] == (a.len() as int, b.len() as int),
            forall|s: int|
                0 <= s < w.len() ==> 0 <= (#[trigger] w[s]).0 <= a.len() && 0 <= w[s].1 <= b.len(),
            forall|s: int| 0 <= s < w.len() - 1 ==> #[trigger] steps_back(a, b, k, w, s),
            path.len() == w.len(),
            a.len() + b.len() < usize::MAX,
            a.len() == graphemes1.items().len(),
            b.len() == graphemes2.items().len(),
            1 <= t <= path.len(),
            prev_coord == path@[t - 1],
            (tokens(&align_graphemes1), tokens(&align_graphemes2)) == alignment(
                a,
                b,
                k,
                gap,
                p[t - 1].0 as nat,
                p[t - 1].1 as nat,
            ),
        decreases path.len() - t,
    {
        let (row, col) = path[t];
        let ghost s = w.len() - 1 - t;
        proof {
            assert(steps_back(a, b, k, w, s));
            assert(p[t as int] == w[s]);
            assert(p[t - 1] == w[s + 1]);
            assert(prev_coord.0 == p[t - 1].0 && prev_coord.1 == p[t - 1].1);
            assert(row == p[t as int].0 && col == p[t as int].1);
        }
        let ghost mv = chosen_move(a, b, k, row as int, col as int);
        let ghost before1 = tokens(&align_graphemes1);
        let ghost before2 = tokens(&align_graphemes2);
        if row == prev_coord.0 + 1 && col == prev_coord.1 + 1 {
            assert(mv is Diagonal);
            align_graphemes1.push_item(graphemes1.at(row - 1).duplicate());
            align_graphemes2.push_item(graphemes2.at(col - 1).duplicate());
            proof {
                assert(tokens(&align_graphemes1) =~= before1.push(a[row - 1]));
                assert(tokens(&align_graphemes2) =~= before2.push(b[col - 1]));
            }
        } else if row == prev_coord.0 {
            assert(mv is Insertion);
            align_graphemes1.push_item(ins_del_char.duplicate());
            align_graphemes2.push_item(graphemes2.at(col - 1).duplicate());
            proof {
                assert(tokens(&align_graphemes1) =~= before1.push(gap));
                assert(tokens(&align_graphemes2) =~= before2.push(b[col - 1]));
            }
        } else {
            assert(mv is Deletion);
            align_graphemes1.push_item(graphemes1.at(row - 1).duplicate());
            align_graphemes2.push_item(ins_del_char.duplicate());
            proof {
                assert(tokens(&align_graphemes1) =~= before1.push(a[row - 1]));
                assert(tokens(&align_graphemes2) =~= before2.push(gap));
            }
        }
        prev_coord = (row, col);
        t = t + 1;
    }
    proof {
        assert(p[path.len() - 1] == w[0]);
    }
    [align_graphemes1, align_graphemes2]
}

/// Round trip between alignment and distance: the two aligned sequences have
/// one length, and counting 1 for each position where either side is the
/// placeholder and the substitution cost for each position where two
/// different elements face each other gives exactly the edit distance,
/// whenever the placeholder occurs in neither input.
pub proof fn lemma_alignment_matches_distance<V>(a: Seq<V>, b: Seq<V>, sub_cost: nat, gap: V)
    requires
        !a.contains(gap),
        !b.contains(gap),
    ensures
        ({
            let (x, y) = alignment(a, b, sub_cost, gap, a.len(), b.len());
            &&& x.len() == y.len()
            &&& alignment_cost(x, y, gap, sub_cost) == edit_distance(a, b, sub_cost)
        }),
{
    lemma_alignment_cost(a, b, sub_cost, gap, a.len(), b.len());
    assert(a.take(a.len() as int) =~= a);
    assert(b.take(b.len() as int) =~= b);
}

} // verus!
