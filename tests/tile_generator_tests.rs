use std::ops::Range;

use tile_merge::random::{create_simple_generator, RandomNumberGenerator, DRAW_SCALE};
use tile_merge::tile_generator::{
    create_probability_intervals, InvalidWeightsError, TileGenerator, TileOption,
};

/// The draw that stands for the fraction `p` of [0, 1).
fn draw(p: f64) -> u64 {
    (p * DRAW_SCALE as f64) as u64
}

fn tile_options() -> Vec<TileOption> {
    vec![
        TileOption {
            value: 2,
            probability: 10,
        },
        TileOption {
            value: 4,
            probability: 20,
        },
        TileOption {
            value: 8,
            probability: 30,
        },
        TileOption {
            value: 16,
            probability: 40,
        },
    ]
}

fn as_fractions(intervals: Vec<u32>) -> Vec<f64> {
    intervals.iter().map(|c| *c as f64 / 100.0).collect()
}

/// Hands out fixed numbers, and records which kind of draw was asked for.
struct ScriptedGenerator {
    fractions: Vec<u64>,
    integers: Vec<i32>,
    calls: Vec<&'static str>,
}

impl RandomNumberGenerator for ScriptedGenerator {
    fn next_fraction(&mut self) -> u64 {
        self.calls.push("fraction");
        self.fractions.remove(0)
    }

    fn next_in_range(&mut self, range: Range<i32>) -> i32 {
        self.calls.push("integer");
        let k = self.integers.remove(0);
        assert!(range.contains(&k));
        k
    }
}

#[test]
fn tile_generator_test_random_tile_generator() {
    let random_tile_generator = TileGenerator::new(tile_options(), create_simple_generator()).unwrap();

    assert_eq!(random_tile_generator.next_tile_internal(draw(0.61)), 16);
    assert_eq!(random_tile_generator.next_tile_internal(draw(0.35)), 8);
    assert_eq!(random_tile_generator.next_tile_internal(draw(0.25)), 4);
    assert_eq!(random_tile_generator.next_tile_internal(draw(0.09)), 2);
}

#[test]
fn tile_generator_test_create_probability_intervals() {
    let probability_intervals_1 = create_probability_intervals(&tile_options());
    assert_eq!(
        as_fractions(probability_intervals_1.unwrap()),
        vec![0.1, 0.3, 0.6, 1.0]
    );

    let probability_intervals_2 = create_probability_intervals(&vec![
        TileOption {
            value: 2,
            probability: 30,
        },
        TileOption {
            value: 4,
            probability: 10,
        },
        TileOption {
            value: 8,
            probability: 35,
        },
        TileOption {
            value: 16,
            probability: 25,
        },
    ]);
    assert_eq!(
        as_fractions(probability_intervals_2.unwrap()),
        vec![0.3, 0.4, 0.75, 1.0]
    );

    let invalid_probability_intervals_1 = create_probability_intervals(&vec![
        TileOption {
            value: 2,
            probability: 30,
        },
        TileOption {
            value: 4,
            probability: 80,
        },
    ]);
    assert!(invalid_probability_intervals_1.is_err());

    let invalid_probability_intervals_2 = create_probability_intervals(&vec![
        TileOption {
            value: 2,
            probability: 30,
        },
        TileOption {
            value: 4,
            probability: 60,
        },
    ]);
    assert!(invalid_probability_intervals_2.is_err());
}

#[test]
fn test_generate_tile() {
    let rng = ScriptedGenerator {
        fractions: vec![draw(0.35)],
        integers: vec![2],
        calls: vec![],
    };
    let mut generator = TileGenerator::new(tile_options(), rng).unwrap();
    let empty_cells = vec![(0, 1), (0, 2), (1, 3)];
    assert_eq!(generator.generate_tile(&empty_cells), (1, 3, 8));
}

#[test]
fn generate_tile_draws_the_cell_before_the_value() {
    let rng = ScriptedGenerator {
        fractions: vec![draw(0.95), draw(0.05)],
        integers: vec![0, 1],
        calls: vec![],
    };
    let mut generator = TileGenerator::new(tile_options(), rng).unwrap();
    let empty_cells = vec![(2, 2), (3, 0)];
    assert_eq!(generator.generate_tile(&empty_cells), (2, 2, 16));
    assert_eq!(generator.select_empty_cell(&empty_cells), (3, 0));
    assert_eq!(generator.next_tile(), 2);
}

#[test]
fn scripted_generator_records_call_order() {
    let mut rng = ScriptedGenerator {
        fractions: vec![0],
        integers: vec![0],
        calls: vec![],
    };
    rng.next_in_range(0..1);
    rng.next_fraction();
    assert_eq!(rng.calls, vec!["integer", "fraction"]);
}

#[test]
fn new_rejects_weights_that_miss_one_hundred() {
    let too_much = vec![
        TileOption {
            value: 2,
            probability: 30,
        },
        TileOption {
            value: 4,
            probability: 80,
        },
    ];
    assert_eq!(
        TileGenerator::new(too_much, create_simple_generator()).err(),
        Some(InvalidWeightsError)
    );
    let too_little = vec![
        TileOption {
            value: 2,
            probability: 30,
        },
        TileOption {
            value: 4,
            probability: 60,
        },
    ];
    assert_eq!(
        create_probability_intervals(&too_little),
        Err(InvalidWeightsError)
    );
    assert_eq!(create_probability_intervals(&vec![]), Err(InvalidWeightsError));
}

#[test]
fn draws_on_an_interval_bound_go_to_the_lower_option() {
    let generator = TileGenerator::new(tile_options(), create_simple_generator()).unwrap();
    // The largest draw that is at most one tenth.
    let bound = DRAW_SCALE / 10;
    assert_eq!(generator.next_tile_internal(bound), 2);
    assert_eq!(generator.next_tile_internal(bound + 1), 4);
    assert_eq!(generator.next_tile_internal(0), 2);
    assert_eq!(generator.next_tile_internal(DRAW_SCALE - 1), 16);
    // Draws at or past 1 fall back to the last option.
    assert_eq!(generator.next_tile_internal(DRAW_SCALE), 16);
    assert_eq!(generator.next_tile_internal(u64::MAX), 16);
}

#[test]
fn zero_weight_option_owns_only_its_bound() {
    let options = vec![
        TileOption {
            value: 2,
            probability: 0,
        },
        TileOption {
            value: 4,
            probability: 100,
        },
    ];
    assert_eq!(
        create_probability_intervals(&options),
        Ok(vec![0, 100])
    );
    let generator = TileGenerator::new(options, create_simple_generator()).unwrap();
    assert_eq!(generator.next_tile_internal(0), 2);
    assert_eq!(generator.next_tile_internal(1), 4);
}
