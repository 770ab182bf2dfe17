//! Whole-board operations: every direction of a shift is reduced to the left
//! shift of each row by reversing rows and transposing the board.

use vstd::prelude::*;

use crate::row::{
    lemma_row_sum_append, lemma_row_sum_reverse, lemma_shift_left_conserves, mergeable,
    non_negative, reversed_row, row_sum, shift_row_left, shifted_left,
};

use crate::random::{RandomNumberGenerator, DRAW_SCALE};
use crate::tile_generator::TileGenerator;

verus! {

broadcast use vstd::std_specs::vec::vec_clone_deep_view_proof;

/// The direction of a move.
#[derive(Clone, Copy, Debug, PartialEq, Eq, Structural)]
pub enum Direction {
    Left,
    Right,
    Up,
    Down,
}

/// The values of a board, row by row.
pub open spec fn grid(b: Seq<Vec<i32>>) -> Seq<Seq<i32>> {
    Seq::new(b.len(), |i: int| b[i]@)
}

/// All rows have the length of the first.
pub open spec fn is_rectangular(g: Seq<Seq<i32>>) -> bool {
    forall|i: int| 0 <= i < g.len() ==> #[trigger] g[i].len() == g[0].len()
}

/// Sum of all values of the board.
pub open spec fn board_sum(g: Seq<Seq<i32>>) -> int
    decreases g.len(),
{
    if g.len() == 0 {
        0
    } else {
        board_sum(g.drop_last()) + row_sum(g.last())
    }
}

/// A board whose values are non-negative and whose total fits in an `i32`,
/// so that no merge and no score can overflow.
pub open spec fn board_mergeable(g: Seq<Seq<i32>>) -> bool {
    &&& forall|i: int| 0 <= i < g.len() ==> non_negative(#[trigger] g[i])
    &&& board_sum(g) <= i32::MAX
}

/// Every row shifted to the left.
pub open spec fn rows_shifted_left(g: Seq<Seq<i32>>) -> Seq<Seq<i32>> {
    Seq::new(g.len(), |i: int| shifted_left(g[i]).0)
}

/// Sum of the scores of the left shifts of all rows.
pub open spec fn score_left(g: Seq<Seq<i32>>) -> int
    decreases g.len(),
{
    if g.len() == 0 {
        0
    } else {
        score_left(g.drop_last()) + shifted_left(g.last()).1
    }
}

/// Every row with its values in reverse order.
pub open spec fn reversed_rows(g: Seq<Seq<i32>>) -> Seq<Seq<i32>> {
    Seq::new(g.len(), |i: int| g[i].reverse())
}

/// Rows become columns: the value at `(i, j)` moves to `(j, i)`. The board
/// without rows has no columns either.
pub open spec fn transposed(g: Seq<Seq<i32>>) -> Seq<Seq<i32>> {
    if g.len() == 0 {
        seq![]
    } else {
        Seq::new(g[0].len(), |j: int| Seq::new(g.len(), |i: int| g[i][j]))
    }
}

/// The board after a move, and the score of the move. Right, up and down are
/// the left shift seen through a reversal of the rows, a transposition, or
/// both.
pub open spec fn shifted(g: Seq<Seq<i32>>, d: Direction) -> (Seq<Seq<i32>>, int) {
    match d {
        Direction::Left => (rows_shifted_left(g), score_left(g)),
        Direction::Right => (
            reversed_rows(rows_shifted_left(reversed_rows(g))),
            score_left(reversed_rows(g)),
        ),
        Direction::Up => (
            transposed(rows_shifted_left(transposed(g))),
            score_left(transposed(g)),
        ),
        Direction::Down => (
            transposed(reversed_rows(rows_shifted_left(reversed_rows(transposed(g))))),
            score_left(reversed_rows(transposed(g))),
        ),
    }
}

proof fn lemma_board_sum_take(g: Seq<Seq<i32>>, i: int)
    requires
        0 <= i < g.len(),
    ensures
        board_sum(g.take(i + 1)) == board_sum(g.take(i)) + row_sum(g[i]),
        score_left(g.take(i + 1)) == score_left(g.take(i)) + shifted_left(g[i]).1,
{
    assert(g.take(i + 1).drop_last() =~= g.take(i));
}

proof fn lemma_board_sum_prefix(g: Seq<Seq<i32>>, i: int)
    requires
        0 <= i <= g.len(),
        forall|k: int| 0 <= k < g.len() ==> non_negative(#[trigger] g[k]),
    ensures
        0 <= board_sum(g.take(i)) <= board_sum(g),
    decreases g.len() - i,
{
    if i < g.len() {
        lemma_board_sum_take(g, i);
        crate::row::lemma_row_sum_non_negative(g[i]);
        lemma_board_sum_prefix(g, i + 1);
        assert forall|k: int| 0 <= k < g.take(i).len() implies non_negative(
            #[trigger] g.take(i)[k],
        ) by {
            assert(g.take(i)[k] == g[k]);
        }
        lemma_board_sum_non_negative(g.take(i));
    } else {
        assert(g.take(i) =~= g);
        lemma_board_sum_non_negative(g);
    }
}

proof fn lemma_board_sum_non_negative(g: Seq<Seq<i32>>)
    requires
        forall|k: int| 0 <= k < g.len() ==> non_negative(#[trigger] g[k]),
    ensures
        board_sum(g) >= 0,
    decreases g.len(),
{
    if g.len() > 0 {
        assert forall|k: int| 0 <= k < g.drop_last().len() implies non_negative(
            #[trigger] g.drop_last()[k],
        ) by {
            assert(g.drop_last()[k] == g[k]);
        }
        lemma_board_sum_non_negative(g.drop_last());
        crate::row::lemma_row_sum_non_negative(g.last());
    }
}

/// Every row of a mergeable board is mergeable on its own.
proof fn lemma_rows_mergeable(g: Seq<Seq<i32>>, i: int)
    requires
        board_mergeable(g),
        0 <= i < g.len(),
    ensures
        mergeable(g[i]),
{
    lemma_board_sum_prefix(g, i);
    lemma_board_sum_prefix(g, i + 1);
    lemma_board_sum_take(g, i);
}

/// Shifts every row of the board to the left; the score is the sum of the
/// rows' scores.
pub fn shift_board_left(v: &Vec<Vec<i32>>) -> (r: (Vec<Vec<i32>>, i32))
    requires
        board_mergeable(grid(v@)),
    ensures
        grid(r.0@) == rows_shifted_left(grid(v@)),
        r.1 == score_left(grid(v@)),
{
    let ghost g = grid(v@);
    let mut vec: Vec<Vec<i32>> = Vec::with_capacity(v.len());
    let mut score: i32 = 0;
    let mut i: usize = 0;
    while i < v.len()
        invariant
            i <= v.len(),
            g == grid(v@),
            board_mergeable(g),
            vec@.len() == i,
            forall|k: int| 0 <= k < i ==> (#[trigger] vec@[k])@ == shifted_left(g[k]).0,
            score == score_left(g.take(i as int)),
            0 <= score <= board_sum(g.take(i as int)),
        decreases v.len() - i,
    {
        proof {
            lemma_rows_mergeable(g, i as int);
            lemma_board_sum_take(g, i as int);
            lemma_board_sum_prefix(g, i + 1);
            lemma_shift_left_conserves(g[i as int]);
        }
        let (row, row_score) = shift_row_left(&v[i]);
        vec.push(row);
        score = score + row_score;
        i += 1;
    }
    proof {
        assert(g.take(v.len() as int) =~= g);
        assert(grid(vec@) =~= rows_shifted_left(g));
    }
    (vec, score)
}

/// Reverses the order of the values in every row.
pub fn reverse_rows(v: &mut Vec<Vec<i32>>)
    ensures
        grid(final(v)@) == reversed_rows(grid(old(v)@)),
{
    let ghost g = grid(v@);
    let mut i: usize = 0;
    while i < v.len()
        invariant
            i <= v.len(),
            v@.len() == g.len(),
            forall|k: int| 0 <= k < i ==> (#[trigger] v@[k])@ == g[k].reverse(),
            forall|k: int| i <= k < v@.len() ==> (#[trigger] v@[k])@ == g[k],
        decreases v.len() - i,
    {
        let row = reversed_row(&v[i]);
        v[i] = row;
        i += 1;
    }
    assert(grid(v@) =~= reversed_rows(g));
}

/// Builds the transposed board: row `j` of the result is column `j` of `v`.
pub fn transpose(v: &Vec<Vec<i32>>) -> (r: Vec<Vec<i32>>)
    requires
        is_rectangular(grid(v@)),
    ensures
        grid(r@) == transposed(grid(v@)),
{
    let ghost g = grid(v@);
    let mut vec: Vec<Vec<i32>> = Vec::new();
    if v.len() == 0 {
        assert(grid(vec@) =~= transposed(g));
        return vec;
    }
    let cols = v[0].len();
    let mut i: usize = 0;
    while i < cols
        invariant
            g == grid(v@),
            is_rectangular(g),
            v.len() > 0,
            cols == g[0].len(),
            i <= cols,
            vec@.len() == i,
            forall|k: int| 0 <= k < i ==> (#[trigger] vec@[k])@ == Seq::new(g.len(), |r: int| g[r][k]),
        decreases cols - i,
    {
        let mut col: Vec<i32> = Vec::with_capacity(v.len());
        let mut j: usize = 0;
        while j < v.len()
            invariant
                g == grid(v@),
                is_rectangular(g),
                v.len() > 0,
                cols == g[0].len(),
                i < cols,
                j <= v.len(),
                col@.len() == j,
                forall|k: int| 0 <= k < j ==> #[trigger] col@[k] == g[k][i as int],
            decreases v.len() - j,
        {
            assert(g[j as int].len() == cols);
            col.push(v[j][i]);
            j += 1;
        }
        assert(col@ =~= Seq::new(g.len(), |r: int| g[r][i as int]));
        vec.push(col);
        i += 1;
    }
    assert(grid(vec@) =~= transposed(g));
    vec
}

/// Transposing a rectangular board twice gives it back. A board of rows
/// without any cell has no columns, so it comes back without rows: it is
/// left out.
pub proof fn lemma_transpose_involutive(g: Seq<Seq<i32>>)
    requires
        is_rectangular(g),
        g.len() == 0 || g[0].len() > 0,
    ensures
        transposed(transposed(g)) == g,
{
    if g.len() > 0 {
        let t = transposed(g);
        assert(t[0].len() == g.len());
        assert forall|i: int| 0 <= i < g.len() implies #[trigger] transposed(t)[i] =~= g[i] by {
            assert(g[i].len() == g[0].len());
        }
        assert(transposed(t) =~= g);
    } else {
        assert(transposed(transposed(g)) =~= g);
    }
}

/// Sum of `f(0)`, ..., `f(n - 1)`.
spec fn sum_n(f: spec_fn(int) -> int, n: int) -> int
    decreases n,
{
    if n <= 0 {
        0
    } else {
        sum_n(f, n - 1) + f(n - 1)
    }
}

proof fn lemma_sum_n_ext(f: spec_fn(int) -> int, h: spec_fn(int) -> int, n: int)
    requires
        forall|k: int| 0 <= k < n ==> #[trigger] f(k) == h(k),
    ensures
        sum_n(f, n) == sum_n(h, n),
    decreases n,
{
    if n > 0 {
        lemma_sum_n_ext(f, h, n - 1);
    }
}

proof fn lemma_sum_n_add(f: spec_fn(int) -> int, h: spec_fn(int) -> int, n: int)
    ensures
        sum_n(|k: int| f(k) + h(k), n) == sum_n(f, n) + sum_n(h, n),
    decreases n,
{
    if n > 0 {
        lemma_sum_n_add(f, h, n - 1);
    }
}

proof fn lemma_sum_n_zero(n: int)
    ensures
        sum_n(|k: int| 0, n) == 0,
    decreases n,
{
    if n > 0 {
        lemma_sum_n_zero(n - 1);
    }
}

proof fn lemma_sum_n_swap(f: spec_fn(int, int) -> int, r: int, c: int)
    requires
        r >= 0,
        c >= 0,
    ensures
        sum_n(|i: int| sum_n(|j: int| f(i, j), c), r) == sum_n(
            |j: int| sum_n(|i: int| f(i, j), r),
            c,
        ),
    decreases r,
{
    if r > 0 {
        lemma_sum_n_swap(f, r - 1, c);
        let a = |j: int| sum_n(|i: int| f(i, j), r - 1);
        let b = |j: int| f(r - 1, j);
        let whole = |j: int| sum_n(|i: int| f(i, j), r);
        assert forall|k: int| 0 <= k < c implies #[trigger] whole(k) == a(k) + b(k) by {
            assert(sum_n(|i: int| f(i, k), r) == sum_n(|i: int| f(i, k), r - 1) + f(r - 1, k));
        }
        lemma_sum_n_ext(whole, |k: int| a(k) + b(k), c);
        lemma_sum_n_add(a, b, c);
        assert(sum_n(whole, c) == sum_n(a, c) + sum_n(b, c));
        assert(sum_n(|i: int| sum_n(|j: int| f(i, j), c), r) == sum_n(
            |i: int| sum_n(|j: int| f(i, j), c),
            r - 1,
        ) + sum_n(b, c));
    } else {
        lemma_sum_n_ext(|j: int| sum_n(|i: int| f(i, j), r), |k: int| 0, c);
        lemma_sum_n_zero(c);
    }
}

proof fn lemma_row_sum_as_sum_n(s: Seq<i32>)
    ensures
        row_sum(s) == sum_n(|j: int| s[j] as int, s.len() as int),
    decreases s.len(),
{
    if s.len() > 0 {
        let init = s.drop_last();
        lemma_row_sum_as_sum_n(init);
        assert(s =~= init + seq![s.last()]);
        lemma_row_sum_append(init, seq![s.last()]);
        assert(seq![s.last()].drop_first() =~= Seq::<i32>::empty());
        lemma_sum_n_ext(|j: int| init[j] as int, |j: int| s[j] as int, init.len() as int);
        assert(row_sum(Seq::<i32>::empty()) == 0);
        assert(row_sum(seq![s.last()]) == s.last());
        assert(sum_n(|j: int| s[j] as int, s.len() as int) == sum_n(
            |j: int| s[j] as int,
            init.len() as int,
        ) + s.last());
    }
}

proof fn lemma_board_sum_as_sum_n(g: Seq<Seq<i32>>)
    ensures
        board_sum(g) == sum_n(|i: int| row_sum(g[i]), g.len() as int),
    decreases g.len(),
{
    if g.len() > 0 {
        let init = g.drop_last();
        lemma_board_sum_as_sum_n(init);
        lemma_sum_n_ext(|i: int| row_sum(init[i]), |i: int| row_sum(g[i]), init.len() as int);
    }
}

/// Transposing a rectangular board keeps the sum of its values.
proof fn lemma_transposed_sum(g: Seq<Seq<i32>>)
    requires
        is_rectangular(g),
    ensures
        board_sum(transposed(g)) == board_sum(g),
{
    if g.len() == 0 {
        assert(transposed(g) =~= g);
    } else {
        let rows = g.len() as int;
        let cols = g[0].len() as int;
        let t = transposed(g);
        let f = |i: int, j: int| g[i][j] as int;
        lemma_board_sum_as_sum_n(g);
        lemma_board_sum_as_sum_n(t);
        assert forall|i: int| 0 <= i < rows implies row_sum(#[trigger] g[i]) == sum_n(
            |j: int| f(i, j),
            cols,
        ) by {
            lemma_row_sum_as_sum_n(g[i]);
            lemma_sum_n_ext(|j: int| g[i][j] as int, |j: int| f(i, j), cols);
        }
        lemma_sum_n_ext(|i: int| row_sum(g[i]), |i: int| sum_n(|j: int| f(i, j), cols), rows);
        assert forall|j: int| 0 <= j < cols implies row_sum(#[trigger] t[j]) == sum_n(
            |i: int| f(i, j),
            rows,
        ) by {
            lemma_row_sum_as_sum_n(t[j]);
            lemma_sum_n_ext(|i: int| t[j][i] as int, |i: int| f(i, j), rows);
        }
        lemma_sum_n_ext(|j: int| row_sum(t[j]), |j: int| sum_n(|i: int| f(i, j), rows), cols);
        lemma_sum_n_swap(f, rows, cols);
    }
}

/// Reversing the rows keeps each row's length and the board's values.
proof fn lemma_reversed_rows_props(g: Seq<Seq<i32>>)
    ensures
        board_sum(reversed_rows(g)) == board_sum(g),
        reversed_rows(g).len() == g.len(),
        forall|i: int| 0 <= i < g.len() ==> (#[trigger] reversed_rows(g)[i]).len() == g[i].len(),
        is_rectangular(g) ==> is_rectangular(reversed_rows(g)),
        board_mergeable(g) ==> board_mergeable(reversed_rows(g)),
    decreases g.len(),
{
    if g.len() > 0 {
        assert(reversed_rows(g).drop_last() =~= reversed_rows(g.drop_last()));
        lemma_reversed_rows_props(g.drop_last());
        lemma_row_sum_reverse(g.last());
    }
    assert forall|i: int| 0 <= i < g.len() && non_negative(g[i]) implies non_negative(
        #[trigger] reversed_rows(g)[i],
    ) by {
        assert forall|k: int| 0 <= k < g[i].len() implies #[trigger] reversed_rows(g)[i][k]
            >= 0 by {
            assert(reversed_rows(g)[i][k] == g[i][g[i].len() - 1 - k]);
        }
    }
}

/// Shifting every row left keeps each row's length and the board's sum; the
/// score is at most that sum.
proof fn lemma_rows_shifted_left_props(g: Seq<Seq<i32>>)
    requires
        board_mergeable(g),
    ensures
        board_sum(rows_shifted_left(g)) == board_sum(g),
        0 <= score_left(g) <= board_sum(g),
        forall|i: int|
            0 <= i < g.len() ==> (#[trigger] rows_shifted_left(g)[i]).len() == g[i].len(),
        is_rectangular(g) ==> is_rectangular(rows_shifted_left(g)),
        board_mergeable(rows_shifted_left(g)),
    decreases g.len(),
{
    assert forall|i: int| 0 <= i < g.len() implies (#[trigger] rows_shifted_left(g)[i]).len()
        == g[i].len() && non_negative(rows_shifted_left(g)[i]) by {
        lemma_rows_mergeable(g, i);
        lemma_shift_left_conserves(g[i]);
    }
    if g.len() > 0 {
        let init = g.drop_last();
        lemma_rows_mergeable(g, g.len() - 1);
        lemma_shift_left_conserves(g.last());
        crate::row::lemma_row_sum_non_negative(g.last());
        assert(rows_shifted_left(g).drop_last() =~= rows_shifted_left(init));
        assert(board_mergeable(init));
        lemma_rows_shifted_left_props(init);
    }
}

/// Transposing keeps a board rectangular and mergeable.
proof fn lemma_transposed_props(g: Seq<Seq<i32>>)
    requires
        is_rectangular(g),
    ensures
        is_rectangular(transposed(g)),
        board_sum(transposed(g)) == board_sum(g),
        board_mergeable(g) ==> board_mergeable(transposed(g)),
{
    lemma_transposed_sum(g);
    if g.len() > 0 {
        assert forall|j: int| 0 <= j < transposed(g).len() && board_mergeable(g) implies non_negative(
            #[trigger] transposed(g)[j],
        ) by {
            assert forall|k: int| 0 <= k < g.len() implies #[trigger] transposed(g)[j][k] >= 0 by {
                assert(g[k].len() == g[0].len());
            }
        }
    }
}

proof fn lemma_grid_clone(a: Vec<Vec<i32>>, b: Vec<Vec<i32>>)
    requires
        a.deep_view() == b.deep_view(),
    ensures
        grid(a@) == grid(b@),
{
    assert(a.deep_view().len() == a@.len());
    assert(b.deep_view().len() == b@.len());
    assert forall|i: int| 0 <= i < a@.len() implies #[trigger] grid(a@)[i] == grid(b@)[i] by {
        assert(a.deep_view()[i] == a@[i].deep_view());
        assert(b.deep_view()[i] == b@[i].deep_view());
        assert(a@[i]@ =~= a@[i].deep_view());
        assert(b@[i]@ =~= b@[i].deep_view());
    }
    assert(grid(a@) =~= grid(b@));
}

/// Shifts every row of the board to the right, as the mirror image of a left
/// shift.
pub fn shift_board_right(v: &Vec<Vec<i32>>) -> (r: (Vec<Vec<i32>>, i32))
    requires
        board_mergeable(grid(v@)),
    ensures
        (grid(r.0@), r.1 as int) == shifted(grid(v@), Direction::Right),
{
    let mut vec = v.clone();
    proof {
        lemma_grid_clone(*v, vec);
    }
    reverse_rows(&mut vec);
    proof {
        lemma_reversed_rows_props(grid(v@));
    }
    let (mut shifted, score) = shift_board_left(&vec);
    reverse_rows(&mut shifted);
    (shifted, score)
}

/// Shifts the board up: the left shift of the transposed board, transposed
/// back.
pub fn shift_board_up(v: &Vec<Vec<i32>>) -> (r: (Vec<Vec<i32>>, i32))
    requires
        board_mergeable(grid(v@)),
        is_rectangular(grid(v@)),
    ensures
        (grid(r.0@), r.1 as int) == shifted(grid(v@), Direction::Up),
{
    let turned = transpose(v);
    proof {
        lemma_transposed_props(grid(v@));
        lemma_rows_shifted_left_props(grid(turned@));
    }
    let (new_board, score) = shift_board_left(&turned);
    (transpose(&new_board), score)
}

/// Shifts the board down: the right shift of the transposed board,
/// transposed back.
pub fn shift_board_down(v: &Vec<Vec<i32>>) -> (r: (Vec<Vec<i32>>, i32))
    requires
        board_mergeable(grid(v@)),
        is_rectangular(grid(v@)),
    ensures
        (grid(r.0@), r.1 as int) == shifted(grid(v@), Direction::Down),
{
    let turned = transpose(v);
    proof {
        let t = grid(turned@);
        lemma_transposed_props(grid(v@));
        lemma_reversed_rows_props(t);
        lemma_rows_shifted_left_props(reversed_rows(t));
        lemma_reversed_rows_props(rows_shifted_left(reversed_rows(t)));
    }
    let (new_board, score) = shift_board_right(&turned);
    (transpose(&new_board), score)
}

/// Moves every tile of the board as far as it goes in `direction`, merging
/// equal neighbours once. Returns the new board and the score of the move.
pub fn shift_board(board: &Vec<Vec<i32>>, direction: Direction) -> (r: (Vec<Vec<i32>>, i32))
    requires
        board_mergeable(grid(board@)),
        is_rectangular(grid(board@)),
    ensures
        (grid(r.0@), r.1 as int) == shifted(grid(board@), direction),
{
    match direction {
        Direction::Left => shift_board_left(board),
        Direction::Right => shift_board_right(board),
        Direction::Up => shift_board_up(board),
        Direction::Down => shift_board_down(board),
    }
}

/// A move keeps the sum of the board's values: merging two equal values `v`
/// puts `2v` in one cell where two cells held `v`. The score, the sum of the
/// merged values, is at most the board's sum.
pub proof fn lemma_shift_conserves(g: Seq<Seq<i32>>, d: Direction)
    requires
        board_mergeable(g),
        is_rectangular(g),
    ensures
        board_sum(shifted(g, d).0) == board_sum(g),
        0 <= shifted(g, d).1 <= board_sum(g),
{
    match d {
        Direction::Left => {
            lemma_rows_shifted_left_props(g);
        },
        Direction::Right => {
            lemma_reversed_rows_props(g);
            lemma_rows_shifted_left_props(reversed_rows(g));
            lemma_reversed_rows_props(rows_shifted_left(reversed_rows(g)));
        },
        Direction::Up => {
            let t = transposed(g);
            lemma_transposed_props(g);
            lemma_rows_shifted_left_props(t);
            lemma_transposed_props(rows_shifted_left(t));
        },
        Direction::Down => {
            let t = transposed(g);
            lemma_transposed_props(g);
            lemma_reversed_rows_props(t);
            lemma_rows_shifted_left_props(reversed_rows(t));
            let m = rows_shifted_left(reversed_rows(t));
            lemma_reversed_rows_props(m);
            lemma_transposed_props(reversed_rows(m));
        },
    }
}

/// The coordinates of the empty cells of row `i`, left to right.
pub open spec fn row_empty_cells(r: Seq<i32>, i: int) -> Seq<(usize, usize)>
    decreases r.len(),
{
    if r.len() == 0 {
        seq![]
    } else {
        row_empty_cells(r.drop_last(), i) + if r.last() == 0 {
            seq![(i as usize, (r.len() - 1) as usize)]
        } else {
            seq![]
        }
    }
}

/// The coordinates of the empty cells of the board, in row-major order.
pub open spec fn empty_cells(g: Seq<Seq<i32>>) -> Seq<(usize, usize)>
    decreases g.len(),
{
    if g.len() == 0 {
        seq![]
    } else {
        empty_cells(g.drop_last()) + row_empty_cells(g.last(), g.len() - 1)
    }
}

/// No value of the board is zero.
pub open spec fn is_full(g: Seq<Seq<i32>>) -> bool {
    forall|i: int, j: int| 0 <= i < g.len() && 0 <= j < g[i].len() ==> #[trigger] g[i][j] != 0
}

proof fn lemma_row_empty_cells_valid(r: Seq<i32>, i: int)
    requires
        0 <= i <= usize::MAX,
        r.len() <= usize::MAX,
    ensures
        forall|k: int|
            0 <= k < row_empty_cells(r, i).len() ==> {
                let c = #[trigger] row_empty_cells(r, i)[k];
                &&& c.0 == i
                &&& c.1 < r.len()
                &&& r[c.1 as int] == 0
            },
    decreases r.len(),
{
    if r.len() > 0 {
        lemma_row_empty_cells_valid(r.drop_last(), i);
        let init = row_empty_cells(r.drop_last(), i);
        assert forall|k: int| 0 <= k < row_empty_cells(r, i).len() implies {
            let c = #[trigger] row_empty_cells(r, i)[k];
            &&& c.0 == i
            &&& c.1 < r.len()
            &&& r[c.1 as int] == 0
        } by {
            if k < init.len() {
                assert(row_empty_cells(r, i)[k] == init[k]);
            } else {
                assert(row_empty_cells(r, i)[k] == (i as usize, (r.len() - 1) as usize));
            }
        }
    }
}

proof fn lemma_row_empty_cells_full(r: Seq<i32>, i: int)
    requires
        forall|j: int| 0 <= j < r.len() ==> r[j] != 0,
    ensures
        row_empty_cells(r, i).len() == 0,
    decreases r.len(),
{
    if r.len() > 0 {
        lemma_row_empty_cells_full(r.drop_last(), i);
    }
}

/// Every listed cell lies on the board and is empty.
proof fn lemma_empty_cells_valid(g: Seq<Seq<i32>>)
    requires
        g.len() <= usize::MAX,
        forall|i: int| 0 <= i < g.len() ==> (#[trigger] g[i]).len() <= usize::MAX,
    ensures
        forall|k: int|
            0 <= k < empty_cells(g).len() ==> {
                let c = #[trigger] empty_cells(g)[k];
                &&& c.0 < g.len()
                &&& c.1 < g[c.0 as int].len()
                &&& g[c.0 as int][c.1 as int] == 0
            },
    decreases g.len(),
{
    if g.len() > 0 {
        let init = g.drop_last();
        assert forall|i: int| 0 <= i < init.len() implies (#[trigger] init[i]).len()
            <= usize::MAX by {
            assert(init[i] == g[i]);
        }
        lemma_empty_cells_valid(init);
        lemma_row_empty_cells_valid(g.last(), g.len() - 1);
        let head = empty_cells(init);
        assert forall|k: int| 0 <= k < empty_cells(g).len() implies {
            let c = #[trigger] empty_cells(g)[k];
            &&& c.0 < g.len()
            &&& c.1 < g[c.0 as int].len()
            &&& g[c.0 as int][c.1 as int] == 0
        } by {
            if k < head.len() {
                assert(empty_cells(g)[k] == head[k]);
                assert(init[empty_cells(g)[k].0 as int] == g[empty_cells(g)[k].0 as int]);
            } else {
                assert(empty_cells(g)[k] == row_empty_cells(g.last(), g.len() - 1)[k - head.len()]);
            }
        }
    }
}

/// A board without an empty cell offers no cell for a new tile.
pub proof fn lemma_full_board_has_no_empty_cells(g: Seq<Seq<i32>>)
    requires
        is_full(g),
    ensures
        empty_cells(g) == Seq::<(usize, usize)>::empty(),
    decreases g.len(),
{
    if g.len() > 0 {
        let init = g.drop_last();
        assert(is_full(init)) by {
            assert forall|i: int, j: int|
                0 <= i < init.len() && 0 <= j < init[i].len() implies #[trigger] init[i][j]
                != 0 by {
                assert(init[i] == g[i]);
            }
        }
        lemma_full_board_has_no_empty_cells(init);
        assert forall|j: int| 0 <= j < g.last().len() implies g.last()[j] != 0 by {
            assert(g[g.len() - 1][j] != 0);
        }
        lemma_row_empty_cells_full(g.last(), g.len() - 1);
    }
    assert(empty_cells(g) =~= Seq::<(usize, usize)>::empty());
}

/// Lists the coordinates `(row, column)` of the empty cells of the board, in
/// row-major order.
pub fn select_empty_cells(v: &Vec<Vec<i32>>) -> (r: Vec<(usize, usize)>)
    ensures
        r@ == empty_cells(grid(v@)),
{
    let ghost g = grid(v@);
    let mut empty: Vec<(usize, usize)> = Vec::new();
    let mut i: usize = 0;
    while i < v.len()
        invariant
            g == grid(v@),
            i <= v.len(),
            empty@ == empty_cells(g.take(i as int)),
        decreases v.len() - i,
    {
        let ghost row = g[i as int];
        let mut j: usize = 0;
        while j < v[i].len()
            invariant
                g == grid(v@),
                i < v.len(),
                row == v@[i as int]@,
                j <= row.len(),
                empty@ == empty_cells(g.take(i as int)) + row_empty_cells(row.take(j as int), i as int),
            decreases row.len() - j,
        {
            proof {
                assert(row.take(j + 1).drop_last() =~= row.take(j as int));
            }
            if v[i][j] == 0 {
                empty.push((i, j));
                assert(empty@ =~= empty_cells(g.take(i as int)) + row_empty_cells(
                    row.take(j + 1),
                    i as int,
                ));
            } else {
                assert(empty@ =~= empty_cells(g.take(i as int)) + row_empty_cells(
                    row.take(j + 1),
                    i as int,
                ));
            }
            j += 1;
        }
        proof {
            assert(row.take(j as int) =~= row);
            assert(g.take(i + 1).drop_last() =~= g.take(i as int));
        }
        i += 1;
    }
    assert(g.take(v.len() as int) =~= g);
    empty
}

/// A tile cannot be placed: the board has no empty cell.
#[derive(Clone, Copy, Debug, PartialEq, Eq, Structural)]
pub struct NoEmptyCellError;

/// The board with `value` written at `cell`.
pub open spec fn placed(g: Seq<Seq<i32>>, cell: (usize, usize), value: i32) -> Seq<Seq<i32>> {
    g.update(cell.0 as int, g[cell.0 as int].update(cell.1 as int, value))
}

/// A copy of the board with one new tile: on an empty cell drawn uniformly,
/// a value drawn from the generator's table. Fails when no cell is empty.
pub fn create_random_tile<R: RandomNumberGenerator>(
    v: &Vec<Vec<i32>>,
    generator: &mut TileGenerator<R>,
) -> (r: Result<Vec<Vec<i32>>, NoEmptyCellError>)
    requires
        old(generator).wf(),
        empty_cells(grid(v@)).len() <= i32::MAX,
    ensures
        final(generator).wf(),
        final(generator).options() == old(generator).options(),
        r is Err <==> empty_cells(grid(v@)).len() == 0,
        r matches Ok(b) ==> exists|k: int, draw: u64|
            0 <= k < empty_cells(grid(v@)).len() && draw < DRAW_SCALE && grid(b@) == placed(
                grid(v@),
                empty_cells(grid(v@))[k],
                old(generator).tile_for(draw),
            ),
{
    let empty = select_empty_cells(v);
    if empty.len() == 0 {
        return Err(NoEmptyCellError);
    }
    let ghost g = grid(v@);
    let mut vec = v.clone();
    proof {
        lemma_grid_clone(*v, vec);
        assert forall|i: int| 0 <= i < g.len() implies (#[trigger] g[i]).len() <= usize::MAX by {
            assert(g[i].len() == v@[i].len());
        }
        lemma_empty_cells_valid(g);
    }
    let (i, j, tile) = generator.generate_tile(&empty);
    let ghost k = choose|k: int| 0 <= k < empty@.len() && empty@[k] == (i, j);
    let ghost draw = choose|draw: u64| draw < DRAW_SCALE && tile == old(generator).tile_for(draw);
    assert(i < vec.len() && j < vec[i as int]@.len());
    let mut row = vec[i].clone();
    assert(row@ =~= vec[i as int]@);
    row[j] = tile;
    vec[i] = row;
    assert(grid(vec@) =~= placed(g, empty@[k], old(generator).tile_for(draw)));
    Ok(vec)
}

} // verus!
