//! Variants of the row and board operations that work in place, without
//! allocating: compaction towards either end of a row, and the transposition
//! of a square board.

use vstd::prelude::*;

use crate::board::{grid, transposed};
use crate::row::{compacted, lemma_nonzero_props, lemma_nonzero_take_step, nonzero, zeros};

verus! {

/// The non-zero values of `s` moved to the back, keeping their order, after
/// as many zeros as the row had.
pub open spec fn compacted_right(s: Seq<i32>) -> Seq<i32> {
    zeros((s.len() - nonzero(s).len()) as nat) + nonzero(s)
}

/// Index of the first empty cell of the row, if there is one.
pub fn find_first_empty(v: &[i32]) -> (r: Option<usize>)
    ensures
        match r {
            Some(i) => i < v@.len() && v@[i as int] == 0 && forall|k: int|
                0 <= k < i ==> v@[k] != 0,
            None => forall|k: int| 0 <= k < v@.len() ==> v@[k] != 0,
        },
{
    let mut i: usize = 0;
    while i < v.len()
        invariant
            i <= v@.len(),
            forall|k: int| 0 <= k < i ==> v@[k] != 0,
        decreases v@.len() - i,
    {
        if v[i] == 0 {
            return Some(i);
        }
        i += 1;
    }
    None
}

/// Index of the last empty cell of the row, if there is one.
pub fn find_last_empty(v: &[i32]) -> (r: Option<usize>)
    ensures
        match r {
            Some(i) => i < v@.len() && v@[i as int] == 0 && forall|k: int|
                i < k < v@.len() ==> v@[k] != 0,
            None => forall|k: int| 0 <= k < v@.len() ==> v@[k] != 0,
        },
{
    let mut i: usize = v.len();
    while i > 0
        invariant
            i <= v@.len(),
            forall|k: int| i <= k < v@.len() ==> v@[k] != 0,
        decreases i,
    {
        if v[i - 1] == 0 {
            return Some(i - 1);
        }
        i -= 1;
    }
    None
}

/// Moves the non-zero values of the row to its front, in place, keeping
/// their order: each one found after the first empty cell is swapped into it.
pub fn compactify_row_left(v: &mut [i32])
    ensures
        final(v)@ == compacted(old(v)@),
{
    let ghost start = v@;
    let mut first_empty = match find_first_empty(v) {
        Some(index) => index,
        None => {
            proof {
                lemma_nonzero_all(start);
            }
            return;
        },
    };
    proof {
        lemma_nonzero_all(start.take(first_empty as int));
        lemma_nonzero_take_step(start, first_empty as int);
        assert(start.take(first_empty as int) =~= v@.take(first_empty as int));
    }
    let len = v.len();
    let mut current = first_empty + 1;
    while current < len
        invariant
            len == v@.len(),
            v@.len() == start.len(),
            first_empty < current <= v@.len(),
            v@.take(first_empty as int) == nonzero(start.take(current as int)),
            forall|k: int| first_empty <= k < current ==> v@[k] == 0,
            v@.skip(current as int) == start.skip(current as int),
        decreases v@.len() - current,
    {
        while current < len && v[current] == 0
            invariant
                len == v@.len(),
                v@.len() == start.len(),
                first_empty < current <= v@.len(),
                v@.take(first_empty as int) == nonzero(start.take(current as int)),
                forall|k: int| first_empty <= k < current ==> v@[k] == 0,
                v@.skip(current as int) == start.skip(current as int),
            decreases v@.len() - current,
        {
            proof {
                assert(start[current as int] == v@.skip(current as int)[0]);
                lemma_nonzero_take_step(start, current as int);
                assert(nonzero(start.take(current as int)) + Seq::<i32>::empty() =~= nonzero(
                    start.take(current as int),
                ));
                assert(v@.skip(current + 1) =~= v@.skip(current as int).drop_first());
                assert(start.skip(current + 1) =~= start.skip(current as int).drop_first());
            }
            current += 1;
        }
        if current < len {
            proof {
                assert(start[current as int] == v@.skip(current as int)[0]);
                lemma_nonzero_take_step(start, current as int);
            }
            let ghost before = v@;
            let moved = v[current];
            v[current] = v[first_empty];
            v[first_empty] = moved;
            proof {
                assert(v@.take(first_empty + 1) =~= nonzero(start.take(current + 1)));
                assert(v@.skip(current + 1) =~= before.skip(current as int).drop_first());
                assert(start.skip(current + 1) =~= start.skip(current as int).drop_first());
            }
            first_empty += 1;
            current += 1;
        }
    }
    proof {
        lemma_compacted_layout(start, v@, first_empty as int);
    }
}

proof fn lemma_nonzero_all(s: Seq<i32>)
    requires
        forall|k: int| 0 <= k < s.len() ==> s[k] != 0,
    ensures
        nonzero(s) == s,
        compacted(s) == s,
    decreases s.len(),
{
    if s.len() > 0 {
        lemma_nonzero_all(s.drop_first());
        assert(seq![s[0]] + s.drop_first() =~= s);
    } else {
        assert(nonzero(s) =~= s);
    }
    assert(compacted(s) =~= s);
}

/// A row whose front holds the non-zero values of `start` and whose back
/// holds only zeros is `start` compacted.
proof fn lemma_compacted_layout(start: Seq<i32>, v: Seq<i32>, split: int)
    requires
        v.len() == start.len(),
        0 <= split <= v.len(),
        v.take(split) == nonzero(start.take(start.len() as int)),
        forall|k: int| split <= k < v.len() ==> v[k] == 0,
    ensures
        v == compacted(start),
{
    assert(start.take(start.len() as int) =~= start);
    lemma_nonzero_props(start);
    assert(v =~= compacted(start));
}

/// Moves the non-zero values of the row to its back, in place, keeping their
/// order: scanning from the back, each one found before the last empty cell
/// is swapped into it.
pub fn compactify_row_right(v: &mut [i32])
    ensures
        final(v)@ == compacted_right(old(v)@),
{
    let ghost start = v@;
    let mut first_empty = match find_last_empty(v) {
        Some(index) => index,
        None => {
            proof {
                lemma_nonzero_all(start);
                assert(compacted_right(start) =~= start);
            }
            return;
        },
    };
    proof {
        lemma_nonzero_all(start.skip(first_empty + 1));
        assert(start.skip(first_empty as int).drop_first() =~= start.skip(first_empty + 1));
        assert(v@.skip(first_empty + 1) =~= start.skip(first_empty + 1));
    }
    // Cells before `current` are still to be examined.
    let mut current: usize = first_empty;
    while current > 0
        invariant
            v@.len() == start.len(),
            current <= first_empty < v@.len(),
            v@.skip(first_empty + 1) == nonzero(start.skip(current as int)),
            forall|k: int| current <= k <= first_empty ==> v@[k] == 0,
            v@.take(current as int) == start.take(current as int),
        decreases current,
    {
        while current > 0 && v[current - 1] == 0
            invariant
                v@.len() == start.len(),
                current <= first_empty < v@.len(),
                v@.skip(first_empty + 1) == nonzero(start.skip(current as int)),
                forall|k: int| current <= k <= first_empty ==> v@[k] == 0,
                v@.take(current as int) == start.take(current as int),
            decreases current,
        {
            proof {
                assert(start[current - 1] == v@.take(current as int)[current - 1]);
                assert(start.skip(current - 1).drop_first() =~= start.skip(current as int));
                assert(v@.take(current - 1) =~= v@.take(current as int).drop_last());
                assert(start.take(current - 1) =~= start.take(current as int).drop_last());
            }
            current -= 1;
        }
        if current > 0 {
            let ghost before = v@;
            proof {
                assert(start[current - 1] == v@.take(current as int)[current - 1]);
                assert(start.skip(current - 1).drop_first() =~= start.skip(current as int));
            }
            let moved = v[current - 1];
            v[current - 1] = v[first_empty];
            v[first_empty] = moved;
            proof {
                assert(v@.skip(first_empty as int) =~= seq![moved] + before.skip(first_empty + 1));
                assert(v@.take(current - 1) =~= start.take(current - 1));
            }
            first_empty -= 1;
            current -= 1;
        }
    }
    proof {
        assert(start.skip(0) =~= start);
        lemma_nonzero_props(start);
        assert(v@ =~= compacted_right(start));
    }
}

/// The board is square: every row is as long as the board has rows.
pub open spec fn is_square(g: Seq<Seq<i32>>) -> bool {
    forall|i: int| 0 <= i < g.len() ==> (#[trigger] g[i]).len() == g.len()
}

/// Transposes a square board in place, swapping each value below the
/// diagonal with its mirror image above it.
pub fn transpose(cells: &mut Vec<Vec<i32>>)
    requires
        is_square(grid(old(cells)@)),
    ensures
        grid(final(cells)@) == transposed(grid(old(cells)@)),
{
    let ghost g = grid(cells@);
    let n = cells.len();
    assert forall|a: int| 0 <= a < n implies (#[trigger] cells@[a])@.len() == n by {
        assert(g[a] == cells@[a]@);
    }
    let mut i: usize = 0;
    while i < n
        invariant
            n == g.len(),
            is_square(g),
            i <= n,
            cells@.len() == n,
            forall|a: int| 0 <= a < n ==> (#[trigger] cells@[a])@.len() == n,
            forall|a: int, b: int|
                0 <= a < n && 0 <= b < n ==> #[trigger] cells@[a]@[b] == if a < i && b < i {
                    g[b][a]
                } else {
                    g[a][b]
                },
        decreases n - i,
    {
        let mut j: usize = 0;
        while j < i
            invariant
                n == g.len(),
                is_square(g),
                j <= i < n,
                cells@.len() == n,
                forall|a: int| 0 <= a < n ==> (#[trigger] cells@[a])@.len() == n,
                forall|a: int, b: int|
                    0 <= a < n && 0 <= b < n ==> #[trigger] cells@[a]@[b] == if (a < i && b < i)
                        || (a == i && b < j) || (b == i && a < j) {
                        g[b][a]
                    } else {
                        g[a][b]
                    },
            decreases i - j,
        {
            let temp = cells[i][j];
            cells[i][j] = cells[j][i];
            cells[j][i] = temp;
            j += 1;
        }
        i += 1;
    }
    proof {
        if n > 0 {
            assert(g[0].len() == n);
        }
        assert forall|a: int| 0 <= a < n implies #[trigger] grid(cells@)[a] =~= transposed(g)[a] by {
            assert(g[0].len() == n);
        }
        assert(grid(cells@) =~= transposed(g));
    }
}

} // verus!
