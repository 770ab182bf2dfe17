//! Operations on one row of the board: compaction and the left-to-right
//! merge pass, from which every shift direction is derived.

use vstd::prelude::*;

verus! {

/// The non-zero values of `s`, in order.
pub open spec fn nonzero(s: Seq<i32>) -> Seq<i32>
    decreases s.len(),
{
    if s.len() == 0 {
        seq![]
    } else if s[0] != 0 {
        seq![s[0]] + nonzero(s.drop_first())
    } else {
        nonzero(s.drop_first())
    }
}

/// `n` empty cells.
pub open spec fn zeros(n: nat) -> Seq<i32> {
    Seq::new(n, |i: int| 0i32)
}

/// `s` followed by empty cells up to length `n`.
pub open spec fn pad(s: Seq<i32>, n: nat) -> Seq<i32> {
    s + zeros((n - s.len()) as nat)
}

/// The non-zero values of `s` moved to the front, the rest filled with zeros.
pub open spec fn compacted(s: Seq<i32>) -> Seq<i32> {
    pad(nonzero(s), s.len())
}

/// The merge pass over the values of `s`: left to right, two adjacent equal
/// values become their sum, and a value takes part in at most one merge.
/// Returns the merged values and the sum of the merged results.
pub open spec fn merge_pairs(s: Seq<i32>) -> (Seq<i32>, int)
    decreases s.len(),
{
    if s.len() < 2 {
        (s, 0)
    } else if s[0] == s[1] {
        let rest = merge_pairs(s.skip(2));
        (seq![(s[0] + s[1]) as i32] + rest.0, s[0] + s[1] + rest.1)
    } else {
        let rest = merge_pairs(s.drop_first());
        (seq![s[0]] + rest.0, rest.1)
    }
}

/// The row after a shift to the left, and the score it earns: the non-zero
/// values are merged pairwise and padded with zeros to the row's length.
pub open spec fn shifted_left(s: Seq<i32>) -> (Seq<i32>, int) {
    let merged = merge_pairs(nonzero(s));
    (pad(merged.0, s.len()), merged.1)
}

/// The in-place pass of `combine_paired_cells_in_row`: it scans from the
/// front until the first empty cell, replacing each pair of equal values by
/// their sum followed by an empty cell.
pub open spec fn paired_combined(s: Seq<i32>) -> (Seq<i32>, int)
    decreases s.len(),
{
    if s.len() < 2 || s[0] == 0 {
        (s, 0)
    } else if s[0] == s[1] {
        let rest = paired_combined(s.skip(2));
        (seq![(s[0] + s[1]) as i32, 0i32] + rest.0, s[0] + s[1] + rest.1)
    } else {
        let rest = paired_combined(s.drop_first());
        (seq![s[0]] + rest.0, rest.1)
    }
}

/// No two neighbouring values of `s` are equal.
pub open spec fn no_adjacent_equal(s: Seq<i32>) -> bool {
    forall|i: int| 0 <= i < s.len() - 1 ==> #[trigger] s[i] != s[i + 1]
}

/// Sum of the values of a row.
pub open spec fn row_sum(s: Seq<i32>) -> int
    decreases s.len(),
{
    if s.len() == 0 {
        0
    } else {
        s[0] + row_sum(s.drop_first())
    }
}

/// Every value of the row is at least zero.
pub open spec fn non_negative(s: Seq<i32>) -> bool {
    forall|i: int| 0 <= i < s.len() ==> s[i] >= 0
}

/// A row whose values cannot overflow when merged: non-negative, with a sum
/// that fits in an `i32`.
pub open spec fn mergeable(s: Seq<i32>) -> bool {
    non_negative(s) && row_sum(s) <= i32::MAX
}

proof fn lemma_nonzero_append(a: Seq<i32>, b: Seq<i32>)
    ensures
        nonzero(a + b) == nonzero(a) + nonzero(b),
    decreases a.len(),
{
    if a.len() == 0 {
        assert(a + b =~= b);
    } else {
        assert((a + b).drop_first() =~= a.drop_first() + b);
        lemma_nonzero_append(a.drop_first(), b);
    }
}

proof fn lemma_nonzero_single(x: i32)
    ensures
        nonzero(seq![x]) == (if x != 0 { seq![x] } else { Seq::<i32>::empty() }),
{
    assert(seq![x].drop_first() =~= Seq::<i32>::empty());
    assert(nonzero(Seq::<i32>::empty()) =~= Seq::<i32>::empty());
    assert(seq![x] + Seq::<i32>::empty() =~= seq![x]);
}

pub(crate) proof fn lemma_nonzero_props(s: Seq<i32>)
    ensures
        nonzero(s).len() <= s.len(),
        forall|i: int| 0 <= i < nonzero(s).len() ==> nonzero(s)[i] != 0,
        row_sum(nonzero(s)) == row_sum(s),
        non_negative(s) ==> non_negative(nonzero(s)),
    decreases s.len(),
{
    if s.len() > 0 {
        lemma_nonzero_props(s.drop_first());
        let t = nonzero(s.drop_first());
        if s[0] != 0 {
            assert((seq![s[0]] + t).drop_first() =~= t);
        }
    }
}

pub(crate) proof fn lemma_row_sum_append(a: Seq<i32>, b: Seq<i32>)
    ensures
        row_sum(a + b) == row_sum(a) + row_sum(b),
    decreases a.len(),
{
    if a.len() == 0 {
        assert(a + b =~= b);
    } else {
        assert((a + b).drop_first() =~= a.drop_first() + b);
        lemma_row_sum_append(a.drop_first(), b);
    }
}

proof fn lemma_row_sum_zeros(n: nat)
    ensures
        row_sum(zeros(n)) == 0,
    decreases n,
{
    if n > 0 {
        assert(zeros(n).drop_first() =~= zeros((n - 1) as nat));
        lemma_row_sum_zeros((n - 1) as nat);
    }
}

/// The compacted row keeps the sum and the sign of the values.
proof fn lemma_compacted_props(s: Seq<i32>)
    ensures
        compacted(s).len() == s.len(),
        row_sum(compacted(s)) == row_sum(s),
        non_negative(s) ==> non_negative(compacted(s)),
{
    lemma_nonzero_props(s);
    lemma_row_sum_append(nonzero(s), zeros((s.len() - nonzero(s).len()) as nat));
    lemma_row_sum_zeros((s.len() - nonzero(s).len()) as nat);
}

pub(crate) proof fn lemma_row_sum_non_negative(s: Seq<i32>)
    requires
        non_negative(s),
    ensures
        row_sum(s) >= 0,
    decreases s.len(),
{
    if s.len() > 0 {
        lemma_row_sum_non_negative(s.drop_first());
    }
}

proof fn lemma_row_sum_two(s: Seq<i32>)
    requires
        s.len() >= 2,
    ensures
        row_sum(s) == s[0] + s[1] + row_sum(s.skip(2)),
{
    assert(s.drop_first().drop_first() =~= s.skip(2));
    assert(row_sum(s.drop_first()) == s[1] + row_sum(s.drop_first().drop_first()));
}

pub(crate) proof fn lemma_row_sum_reverse(s: Seq<i32>)
    ensures
        row_sum(s.reverse()) == row_sum(s),
    decreases s.len(),
{
    if s.len() > 0 {
        let init = s.drop_last();
        assert(s.reverse() =~= seq![s.last()] + init.reverse());
        assert(s =~= init + seq![s.last()]);
        lemma_row_sum_reverse(init);
        lemma_row_sum_append(seq![s.last()], init.reverse());
        lemma_row_sum_append(init, seq![s.last()]);
        assert(seq![s.last()].drop_first() =~= Seq::<i32>::empty());
    }
}

/// The merge pass keeps the row's sum, scores at most that sum, and never
/// lengthens the row.
proof fn lemma_merge_pairs_props(s: Seq<i32>)
    requires
        mergeable(s),
    ensures
        row_sum(merge_pairs(s).0) == row_sum(s),
        0 <= merge_pairs(s).1 <= row_sum(s),
        non_negative(merge_pairs(s).0),
        merge_pairs(s).0.len() <= s.len(),
    decreases s.len(),
{
    lemma_row_sum_non_negative(s);
    if s.len() >= 2 {
        lemma_row_sum_two(s);
        lemma_row_sum_non_negative(s.skip(2));
        let t = if s[0] == s[1] { s.skip(2) } else { s.drop_first() };
        let v = if s[0] == s[1] { (s[0] + s[1]) as i32 } else { s[0] };
        assert(non_negative(t));
        lemma_row_sum_non_negative(t);
        lemma_merge_pairs_props(t);
        let x = seq![v] + merge_pairs(t).0;
        assert(merge_pairs(s).0 == x);
        assert(x.drop_first() =~= merge_pairs(t).0);
        assert(row_sum(x) == x[0] + row_sum(merge_pairs(t).0));
    }
}

/// On values that are all non-zero, followed by empty cells, the in-place
/// pass agrees with the merge pass once its empty cells are dropped.
proof fn lemma_paired_combined_merges(s: Seq<i32>, k: nat)
    requires
        mergeable(s),
        forall|i: int| 0 <= i < s.len() ==> s[i] != 0,
    ensures
        paired_combined(s + zeros(k)).0.len() == s.len() + k,
        nonzero(paired_combined(s + zeros(k)).0) == merge_pairs(s).0,
        paired_combined(s + zeros(k)).1 == merge_pairs(s).1,
    decreases s.len(),
{
    let full = s + zeros(k);
    if s.len() == 0 {
        assert(full =~= zeros(k));
        if k > 0 {
            assert(full[0] == 0);
        }
        lemma_nonzero_zeros(k);
    } else if s.len() == 1 {
        assert(full =~= seq![s[0]] + zeros(k));
        if k > 0 {
            assert(full.drop_first() =~= zeros(k));
            lemma_paired_combined_merges(Seq::<i32>::empty(), k);
            assert(Seq::<i32>::empty() + zeros(k) =~= zeros(k));
        }
        lemma_nonzero_append(seq![s[0]], zeros(k));
        lemma_nonzero_single(s[0]);
        lemma_nonzero_zeros(k);
        lemma_nonzero_append(seq![s[0]], paired_combined(full.drop_first()).0);
        assert(seq![s[0]] + Seq::<i32>::empty() =~= seq![s[0]]);
    } else {
        lemma_row_sum_two(s);
        lemma_row_sum_non_negative(s.skip(2));
        if s[0] == s[1] {
            let t = s.skip(2);
            assert(full.skip(2) =~= t + zeros(k));
            assert(non_negative(t));
            lemma_paired_combined_merges(t, k);
            let rest = paired_combined(t + zeros(k)).0;
            let v = (s[0] + s[1]) as i32;
            assert(v != 0);
            lemma_nonzero_append(seq![v, 0i32], rest);
            assert(seq![v, 0i32] =~= seq![v] + seq![0i32]);
            lemma_nonzero_append(seq![v], seq![0i32]);
            lemma_nonzero_single(v);
            lemma_nonzero_single(0i32);
            assert(seq![v] + Seq::<i32>::empty() =~= seq![v]);
        } else {
            let t = s.drop_first();
            assert(full.drop_first() =~= t + zeros(k));
            lemma_row_sum_non_negative(t);
            assert(non_negative(t));
            lemma_paired_combined_merges(t, k);
            let rest = paired_combined(t + zeros(k)).0;
            lemma_nonzero_append(seq![s[0]], rest);
            lemma_nonzero_single(s[0]);
        }
    }
}

proof fn lemma_nonzero_zeros(k: nat)
    ensures
        nonzero(zeros(k)) == Seq::<i32>::empty(),
    decreases k,
{
    if k > 0 {
        assert(zeros(k).drop_first() =~= zeros((k - 1) as nat));
        lemma_nonzero_zeros((k - 1) as nat);
    } else {
        assert(zeros(k) =~= Seq::<i32>::empty());
    }
}

/// Shifting a row to the left keeps the sum of its values: each merge of
/// two equal values `v` turns `2v` held in two cells into `2v` held in one,
/// and scores `2v`, so the score never exceeds the row's sum.
pub proof fn lemma_shift_left_conserves(s: Seq<i32>)
    requires
        mergeable(s),
    ensures
        row_sum(shifted_left(s).0) == row_sum(s),
        0 <= shifted_left(s).1 <= row_sum(s),
        non_negative(shifted_left(s).0),
        shifted_left(s).0.len() == s.len(),
{
    lemma_nonzero_props(s);
    lemma_merge_pairs_props(nonzero(s));
    let m = merge_pairs(nonzero(s)).0;
    lemma_row_sum_append(m, zeros((s.len() - m.len()) as nat));
    lemma_row_sum_zeros((s.len() - m.len()) as nat);
    assert forall|i: int| 0 <= i < shifted_left(s).0.len() implies #[trigger] shifted_left(s).0[i]
        >= 0 by {
        if i >= m.len() {
            assert(shifted_left(s).0[i] == zeros((s.len() - m.len()) as nat)[i - m.len()]);
        }
    }
}

/// A row none of whose non-zero values meets an equal neighbour once the
/// zeros are removed is only compacted by a left shift, and scores nothing.
pub proof fn lemma_shift_left_without_pairs(s: Seq<i32>)
    requires
        no_adjacent_equal(nonzero(s)),
    ensures
        shifted_left(s) == (compacted(s), 0int),
{
    lemma_merge_pairs_identity(nonzero(s));
}

proof fn lemma_merge_pairs_identity(s: Seq<i32>)
    requires
        no_adjacent_equal(s),
    ensures
        merge_pairs(s) == (s, 0int),
    decreases s.len(),
{
    if s.len() >= 2 {
        let t = s.drop_first();
        assert(no_adjacent_equal(t));
        lemma_merge_pairs_identity(t);
        assert(seq![s[0]] + t =~= s);
    }
}

pub(crate) proof fn lemma_nonzero_take_step(s: Seq<i32>, i: int)
    requires
        0 <= i < s.len(),
    ensures
        nonzero(s.take(i + 1)) == nonzero(s.take(i)) + if s[i] != 0 {
            seq![s[i]]
        } else {
            Seq::<i32>::empty()
        },
{
    assert(s.take(i + 1) =~= s.take(i) + seq![s[i]]);
    lemma_nonzero_append(s.take(i), seq![s[i]]);
    lemma_nonzero_single(s[i]);
}

/// Moves the non-zero values of `v` to the front, keeping their order, and
/// fills the rest with zeros.
pub fn compactify_row(v: &Vec<i32>) -> (r: Vec<i32>)
    ensures
        r@ == compacted(v@),
{
    let mut out: Vec<i32> = Vec::new();
    let mut i: usize = 0;
    while i < v.len()
        invariant
            i <= v.len(),
            out@ == nonzero(v@.take(i as int)),
        decreases v.len() - i,
    {
        proof {
            lemma_nonzero_take_step(v@, i as int);
            assert(nonzero(v@.take(i as int)) + Seq::<i32>::empty() =~= nonzero(v@.take(i as int)));
        }
        if v[i] != 0 {
            out.push(v[i]);
        }
        i += 1;
    }
    proof {
        assert(v@.take(v.len() as int) =~= v@);
        lemma_nonzero_props(v@);
    }
    let ghost kept = out@;
    while out.len() < v.len()
        invariant
            kept.len() <= out.len() <= v.len(),
            out@ == kept + zeros((out.len() - kept.len()) as nat),
        decreases v.len() - out.len(),
    {
        out.push(0);
        assert(out@ =~= kept + zeros((out.len() - kept.len()) as nat));
    }
    out
}

/// Scans `v` from the front up to its first empty cell, replacing each pair
/// of equal neighbours by their sum followed by an empty cell; the cell after
/// a merge is not compared with the merged value. Returns the row compacted
/// after that pass, and the sum of the merged values.
pub fn combine_paired_cells_in_row(v: &mut Vec<i32>) -> (r: (Vec<i32>, i32))
    requires
        mergeable(old(v)@),
    ensures
        final(v)@ == paired_combined(old(v)@).0,
        r.0@ == compacted(paired_combined(old(v)@).0),
        r.1 == paired_combined(old(v)@).1,
{
    let ghost start = v@;
    let mut i: usize = 0;
    let mut score: i32 = 0;
    proof {
        lemma_row_sum_non_negative(v@);
        assert(v@.take(0) + v@.skip(0) =~= v@);
    }
    while v.len() - i > 1 && v[i] != 0
        invariant
            i <= v.len(),
            v.len() == start.len(),
            v@.skip(i as int) == start.skip(i as int),
            paired_combined(start).0 == v@.take(i as int) + paired_combined(v@.skip(i as int)).0,
            paired_combined(start).1 == score + paired_combined(v@.skip(i as int)).1,
            0 <= score,
            score + row_sum(v@.skip(i as int)) <= row_sum(start),
            mergeable(start),
        decreases v.len() - i,
    {
        let ghost rest = v@.skip(i as int);
        proof {
            assert(non_negative(rest));
            lemma_row_sum_two(rest);
            lemma_row_sum_non_negative(rest.skip(2));
            lemma_row_sum_non_negative(rest.drop_first());
        }
        if v[i] == v[i + 1] {
            let merged = v[i] + v[i + 1];
            v[i] = merged;
            v[i + 1] = 0;
            score = score + merged;
            proof {
                assert(rest.skip(2) =~= v@.skip(i + 2));
                assert(v@.take(i + 2) =~= v@.take(i as int) + seq![merged, 0i32]);
            }
            i = i + 2;
        } else {
            proof {
                assert(rest.drop_first() =~= v@.skip(i + 1));
                assert(v@.take(i + 1) =~= v@.take(i as int) + seq![v@[i as int]]);
            }
            i = i + 1;
        }
    }
    proof {
        assert(v@.take(i as int) + v@.skip(i as int) =~= v@);
    }
    (compactify_row(v), score)
}

/// The row with its values in reverse order.
pub fn reversed_row(v: &Vec<i32>) -> (r: Vec<i32>)
    ensures
        r@ == v@.reverse(),
{
    let mut out: Vec<i32> = Vec::new();
    let mut k: usize = v.len();
    while k > 0
        invariant
            k <= v.len(),
            out@.len() == v.len() - k,
            forall|j: int| 0 <= j < out@.len() ==> out@[j] == v@[v.len() - 1 - j],
        decreases k,
    {
        k -= 1;
        out.push(v[k]);
    }
    assert(out@ =~= v@.reverse());
    out
}

/// Shifts a row to the left: empty cells are squeezed out, adjacent equal
/// values merge once, left to right, and the row is padded with zeros.
/// Returns the new row and the score, the sum of the merged values.
pub fn shift_row_left(v: &Vec<i32>) -> (r: (Vec<i32>, i32))
    requires
        mergeable(v@),
    ensures
        (r.0@, r.1 as int) == shifted_left(v@),
{
    let mut vec = compactify_row(v);
    proof {
        lemma_compacted_props(v@);
        lemma_nonzero_props(v@);
        lemma_paired_combined_merges(nonzero(v@), (v@.len() - nonzero(v@).len()) as nat);
    }
    combine_paired_cells_in_row(&mut vec)
}

/// Shifts a row to the right: the mirror image of the left shift, with the
/// same score.
pub fn shift_row_right(v: &Vec<i32>) -> (r: (Vec<i32>, i32))
    requires
        mergeable(v@),
    ensures
        r.0@ == shifted_left(v@.reverse()).0.reverse(),
        r.1 == shifted_left(v@.reverse()).1,
{
    let vv = reversed_row(v);
    proof {
        lemma_row_sum_reverse(v@);
    }
    let (vec, score) = shift_row_left(&vv);
    (reversed_row(&vec), score)
}

} // verus!
