//! Weighted choice of a new tile's value and of the empty cell it lands on.
//! A table of options with integer percentage weights is turned into
//! cumulative intervals once; a uniform draw from [0, 1) then falls into the
//! first interval whose upper bound it does not exceed.

use vstd::prelude::*;

use crate::random::{RandomNumberGenerator, SimpleGenerator, DRAW_SCALE};

verus! {

/// The weights of a valid table, in percent, sum to this.
pub const TOTAL_PROBABILITY: u32 = 100;

/// A tile value and its weight, in percent.
#[derive(Clone, Copy, Debug, PartialEq, Eq, Structural)]
pub struct TileOption {
    pub value: i32,
    pub probability: u8,
}

/// The weights of a table of options do not sum to 100.
#[derive(Clone, Copy, Debug, PartialEq, Eq, Structural)]
pub struct InvalidWeightsError;

/// Sum of the weights of the options.
pub open spec fn weight_total(options: Seq<TileOption>) -> int
    decreases options.len(),
{
    if options.len() == 0 {
        0
    } else {
        weight_total(options.drop_last()) + options.last().probability
    }
}

/// The cumulative weights, in percent: entry `i` sums the weights of options
/// `0` to `i`, so that option `i` owns the draws above entry `i - 1` and up
/// to entry `i`, both read as fractions of 100.
pub open spec fn cumulative_weights(options: Seq<TileOption>) -> Seq<u32> {
    Seq::new(options.len(), |i: int| weight_total(options.take(i + 1)) as u32)
}

/// The draw `draw / DRAW_SCALE` is at most `bound / 100`.
pub open spec fn draw_within(draw: u64, bound: u32) -> bool {
    draw as int * TOTAL_PROBABILITY as int <= bound as int * DRAW_SCALE as int
}

/// The interval that a draw falls in, searching from index `i`: the first
/// whose bound is at least the draw, or else the last one.
pub open spec fn bucket_from(intervals: Seq<u32>, draw: u64, i: int) -> int
    decreases intervals.len() - i,
{
    if i >= intervals.len() - 1 {
        intervals.len() - 1
    } else if draw_within(draw, intervals[i]) {
        i
    } else {
        bucket_from(intervals, draw, i + 1)
    }
}

/// The interval that a draw falls in.
pub open spec fn bucket(intervals: Seq<u32>, draw: u64) -> int {
    bucket_from(intervals, draw, 0)
}

proof fn lemma_weight_total_take(options: Seq<TileOption>, i: int)
    requires
        0 <= i < options.len(),
    ensures
        weight_total(options.take(i + 1)) == weight_total(options.take(i))
            + options[i].probability,
{
    assert(options.take(i + 1).drop_last() =~= options.take(i));
}

proof fn lemma_weight_total_prefix(options: Seq<TileOption>, i: int)
    requires
        0 <= i <= options.len(),
    ensures
        0 <= weight_total(options.take(i)) <= weight_total(options),
    decreases options.len() - i,
{
    if i < options.len() {
        lemma_weight_total_take(options, i);
        lemma_weight_total_prefix(options, i + 1);
    } else {
        assert(options.take(i) =~= options);
    }
    lemma_weight_total_non_negative(options.take(i));
}

proof fn lemma_weight_total_non_negative(options: Seq<TileOption>)
    ensures
        weight_total(options) >= 0,
    decreases options.len(),
{
    if options.len() > 0 {
        lemma_weight_total_non_negative(options.drop_last());
    }
}

proof fn lemma_bucket_from_range(intervals: Seq<u32>, draw: u64, i: int)
    requires
        intervals.len() > 0,
        0 <= i,
    ensures
        0 <= bucket_from(intervals, draw, i) < intervals.len(),
    decreases intervals.len() - i,
{
    if i < intervals.len() - 1 && !draw_within(draw, intervals[i]) {
        lemma_bucket_from_range(intervals, draw, i + 1);
    }
}

/// Builds the cumulative intervals of a table of options, as percentages:
/// option `i` owns the draws above entry `i - 1` and up to entry `i`, read as
/// fractions of 100. Fails when the weights do not sum to 100.
pub fn create_probability_intervals(options: &Vec<TileOption>) -> (r: Result<
    Vec<u32>,
    InvalidWeightsError,
>)
    ensures
        r is Ok <==> weight_total(options@) == TOTAL_PROBABILITY,
        r matches Ok(intervals) ==> intervals@ == cumulative_weights(options@),
{
    let mut intervals: Vec<u32> = Vec::new();
    let mut cumulative: u32 = 0;
    let mut i: usize = 0;
    while i < options.len()
        invariant
            i <= options.len(),
            cumulative == weight_total(options@.take(i as int)),
            cumulative <= TOTAL_PROBABILITY,
            intervals@.len() == i,
            forall|k: int|
                0 <= k < i ==> #[trigger] intervals@[k] == weight_total(options@.take(k + 1)) as u32,
        decreases options.len() - i,
    {
        proof {
            lemma_weight_total_take(options@, i as int);
        }
        cumulative = cumulative + options[i].probability as u32;
        if cumulative > TOTAL_PROBABILITY {
            proof {
                lemma_weight_total_prefix(options@, i + 1);
            }
            return Err(InvalidWeightsError);
        }
        intervals.push(cumulative);
        i += 1;
    }
    proof {
        assert(options@.take(options.len() as int) =~= options@);
    }
    if cumulative != TOTAL_PROBABILITY {
        return Err(InvalidWeightsError);
    }
    assert(intervals@ =~= cumulative_weights(options@));
    Ok(intervals)
}

/// Picks the value of new tiles from a weighted table of options, and the
/// cell they land on, with draws from a random number generator.
pub struct TileGenerator<R: RandomNumberGenerator> {
    options: Vec<TileOption>,
    probability_intervals: Vec<u32>,
    rng: R,
}

/// A tile generator backed by the thread-local generator of `rand`.
pub type RandomTileGenerator = TileGenerator<SimpleGenerator>;

impl<R: RandomNumberGenerator> TileGenerator<R> {
    /// The table of options.
    pub closed spec fn options(&self) -> Seq<TileOption> {
        self.options@
    }

    /// The cumulative intervals of the table, in percent.
    pub closed spec fn intervals(&self) -> Seq<u32> {
        self.probability_intervals@
    }

    /// The table is valid and the intervals are derived from it.
    pub open spec fn wf(&self) -> bool {
        &&& weight_total(self.options()) == TOTAL_PROBABILITY
        &&& self.intervals() == cumulative_weights(self.options())
    }

    /// The tile value that a draw `draw / DRAW_SCALE` selects.
    pub open spec fn tile_for(&self, draw: u64) -> i32 {
        self.options()[bucket(self.intervals(), draw)].value
    }

    /// A generator of tiles from the table `options`, whose weights must sum
    /// to 100.
    pub fn new(options: Vec<TileOption>, rng: R) -> (r: Result<TileGenerator<R>, InvalidWeightsError>)
        ensures
            r is Ok <==> weight_total(options@) == TOTAL_PROBABILITY,
            r matches Ok(g) ==> g.wf() && g.options() == options@,
    {
        match create_probability_intervals(&options) {
            Ok(v) => Ok(TileGenerator { options: options, probability_intervals: v, rng: rng }),
            Err(err) => Err(err),
        }
    }

    /// The value of a new tile and the empty cell it lands on: the cell is
    /// drawn first, then the value.
    pub fn generate_tile(&mut self, empty_cells: &Vec<(usize, usize)>) -> (r: (usize, usize, i32))
        requires
            old(self).wf(),
            0 < empty_cells@.len() <= i32::MAX,
        ensures
            final(self).wf(),
            final(self).options() == old(self).options(),
            empty_cells@.contains((r.0, r.1)),
            exists|draw: u64| draw < DRAW_SCALE && r.2 == old(self).tile_for(draw),
    {
        let ghost before = *self;
        let (i, j) = self.select_empty_cell(empty_cells);
        let ghost middle = *self;
        let tile = self.next_tile();
        proof {
            let draw = choose|draw: u64| draw < DRAW_SCALE && tile == middle.tile_for(draw);
            assert(tile == before.tile_for(draw));
        }
        (i, j, tile)
    }

    /// The value of a new tile, for a fresh draw.
    pub fn next_tile(&mut self) -> (r: i32)
        requires
            old(self).wf(),
        ensures
            final(self).wf(),
            final(self).options() == old(self).options(),
            exists|draw: u64| draw < DRAW_SCALE && r == old(self).tile_for(draw),
    {
        let p = self.rng.next_fraction();
        let r = self.next_tile_internal(p);
        assert(r == old(self).tile_for(p));
        r
    }

    /// One of the cells, drawn uniformly.
    pub fn select_empty_cell(&mut self, empty_cells: &Vec<(usize, usize)>) -> (r: (usize, usize))
        requires
            0 < empty_cells@.len() <= i32::MAX,
        ensures
            final(self).options() == old(self).options(),
            final(self).intervals() == old(self).intervals(),
            empty_cells@.contains(r),
    {
        let k = self.rng.next_in_range(0..empty_cells.len() as i32);
        empty_cells[k as usize]
    }

    /// The tile value that the draw `random_number / DRAW_SCALE` selects: the
    /// first option whose interval bound is at least the draw, or the last
    /// option when none is.
    pub fn next_tile_internal(&self, random_number: u64) -> (r: i32)
        requires
            self.wf(),
        ensures
            r == self.tile_for(random_number),
    {
        let ghost iv = self.intervals();
        proof {
            lemma_weight_total_prefix(self.options(), 0);
            if self.options().len() == 0 {
                assert(self.options() =~= self.options().take(0));
            }
            lemma_bucket_from_range(iv, random_number, 0);
        }
        let mut index: usize = 0;
        while self.probability_intervals.len() - index > 1
            && (random_number as u128) * (TOTAL_PROBABILITY as u128)
                > (self.probability_intervals[index] as u128) * (DRAW_SCALE as u128)
            invariant
                iv == self.intervals(),
                iv.len() > 0,
                index < iv.len(),
                bucket(iv, random_number) == bucket_from(iv, random_number, index as int),
            decreases iv.len() - index,
        {
            index += 1;
        }
        self.options[index].value
    }
}

} // verus!
