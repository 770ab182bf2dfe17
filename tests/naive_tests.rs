use tile_merge::board::{
    create_random_tile, reverse_rows, select_empty_cells, shift_board, shift_board_down,
    shift_board_left, shift_board_right, shift_board_up, transpose, Direction,
};
use tile_merge::random::{create_simple_generator, RandomNumberGenerator, DRAW_SCALE};
use tile_merge::row::{
    combine_paired_cells_in_row, compactify_row, shift_row_left, shift_row_right,
};
use tile_merge::tile_generator::{create_probability_intervals, RandomTileGenerator, TileOption};

#[test]
fn lib_test_shift_board() {
    let v1 = vec![
        vec![2, 0, 2, 0],
        vec![0, 4, 4, 2],
        vec![2, 2, 2, 2],
        vec![2, 4, 2, 4],
    ];

    let expected_left = vec![
        vec![4, 0, 0, 0],
        vec![8, 2, 0, 0],
        vec![4, 4, 0, 0],
        vec![2, 4, 2, 4],
    ];
    assert_eq!(shift_board(&v1, Direction::Left), (expected_left, 20));

    let expected_right = vec![
        vec![0, 0, 0, 4],
        vec![0, 0, 8, 2],
        vec![0, 0, 4, 4],
        vec![2, 4, 2, 4],
    ];
    assert_eq!(shift_board(&v1, Direction::Right), (expected_right, 20));

    let expected_up = vec![
        vec![4, 4, 2, 4],
        vec![2, 2, 4, 4],
        vec![0, 4, 4, 0],
        vec![0, 0, 0, 0],
    ];
    assert_eq!(shift_board(&v1, Direction::Up), (expected_up, 12));

    let expected_down = vec![
        vec![0, 0, 0, 0],
        vec![0, 4, 2, 0],
        vec![2, 2, 4, 4],
        vec![4, 4, 4, 4],
    ];
    assert_eq!(shift_board(&v1, Direction::Down), (expected_down, 12));
}

#[test]
fn lib_test_shift_board_left() {
    let v1 = vec![
        vec![2, 0, 2, 0],
        vec![0, 4, 4, 2],
        vec![2, 2, 2, 2],
        vec![2, 4, 2, 4],
    ];
    let expected = vec![
        vec![4, 0, 0, 0],
        vec![8, 2, 0, 0],
        vec![4, 4, 0, 0],
        vec![2, 4, 2, 4],
    ];
    assert_eq!(shift_board_left(&v1), (expected, 20));
}

#[test]
fn lib_test_shift_board_right() {
    let v1 = vec![
        vec![2, 0, 2, 0],
        vec![0, 4, 4, 2],
        vec![2, 2, 2, 2],
        vec![2, 4, 2, 4],
    ];
    let expected = vec![
        vec![0, 0, 0, 4],
        vec![0, 0, 8, 2],
        vec![0, 0, 4, 4],
        vec![2, 4, 2, 4],
    ];
    assert_eq!(shift_board_right(&v1), (expected, 20));
}

#[test]
fn lib_test_shift_board_up() {
    let v1 = vec![
        vec![2, 0, 2, 0],
        vec![0, 4, 4, 2],
        vec![2, 2, 2, 2],
        vec![2, 4, 2, 4],
    ];
    let expected = vec![
        vec![4, 4, 2, 4],
        vec![2, 2, 4, 4],
        vec![0, 4, 4, 0],
        vec![0, 0, 0, 0],
    ];
    assert_eq!(shift_board_up(&v1), (expected, 12));
}

#[test]
fn lib_test_shift_board_down() {
    let v1 = vec![
        vec![2, 0, 2, 0],
        vec![0, 4, 4, 2],
        vec![2, 2, 2, 2],
        vec![2, 4, 2, 4],
    ];
    let expected = vec![
        vec![0, 0, 0, 0],
        vec![0, 4, 2, 0],
        vec![2, 2, 4, 4],
        vec![4, 4, 4, 4],
    ];
    assert_eq!(shift_board_down(&v1), (expected, 12));
}

#[test]
fn lib_test_reverse_rows() {
    let mut v1 = vec![
        vec![2, 0, 2, 0],
        vec![0, 4, 4, 2],
        vec![2, 2, 2, 2],
        vec![2, 4, 2, 4],
    ];
    let expected = vec![
        vec![0, 2, 0, 2],
        vec![2, 4, 4, 0],
        vec![2, 2, 2, 2],
        vec![4, 2, 4, 2],
    ];
    reverse_rows(&mut v1);
    assert_eq!(v1, expected);
}

#[test]
fn lib_test_shift_row_left() {
    let v1 = vec![2, 0, 0, 0, 2, 0, 4, 0];
    assert_eq!(shift_row_left(&v1), (vec![4, 4, 0, 0, 0, 0, 0, 0], 4));

    let v2 = vec![2, 4, 8, 2, 4, 8, 2, 4];
    assert_eq!(shift_row_left(&v2), (vec![2, 4, 8, 2, 4, 8, 2, 4], 0));

    let v3 = vec![2, 2, 2, 2, 8, 4, 4, 2];
    assert_eq!(shift_row_left(&v3), (vec![4, 4, 8, 8, 2, 0, 0, 0], 16));

    let v4 = vec![0, 0, 0, 2, 2, 2, 2, 4];
    assert_eq!(shift_row_left(&v4), (vec![4, 4, 4, 0, 0, 0, 0, 0], 8));
}

#[test]
fn lib_test_shift_row_right() {
    let v1 = vec![2, 0, 0, 0, 2, 0, 4, 0];
    assert_eq!(shift_row_right(&v1), (vec![0, 0, 0, 0, 0, 0, 4, 4], 4));

    let v2 = vec![2, 4, 8, 2, 4, 8, 2, 4];
    assert_eq!(shift_row_right(&v2), (vec![2, 4, 8, 2, 4, 8, 2, 4], 0));

    let v3 = vec![2, 2, 2, 2, 8, 4, 4, 2];
    assert_eq!(shift_row_right(&v3), (vec![0, 0, 0, 4, 4, 8, 8, 2], 16));

    let v4 = vec![0, 2, 0, 2, 2, 2, 2, 4];
    assert_eq!(shift_row_right(&v4), (vec![0, 0, 0, 0, 2, 4, 4, 4], 8));
}

#[test]
fn lib_test_compactify() {
    let v1 = vec![2, 0, 0, 0, 2, 0, 4, 0];
    assert_eq!(compactify_row(&v1), vec![2, 2, 4, 0, 0, 0, 0, 0]);

    let v2 = vec![0, 0, 2, 0, 2, 0, 4, 0];
    assert_eq!(compactify_row(&v2), vec![2, 2, 4, 0, 0, 0, 0, 0]);

    let v3 = vec![2, 2, 4, 0, 0, 0, 0, 0];
    assert_eq!(compactify_row(&v3), vec![2, 2, 4, 0, 0, 0, 0, 0]);

    let v4 = vec![2, 2, 4];
    assert_eq!(compactify_row(&v4), vec![2, 2, 4]);
}

#[test]
fn lib_test_combine_paired_cells_in_row() {
    let mut v1 = vec![2, 2, 2, 2, 4, 8, 0, 0];
    assert_eq!(
        combine_paired_cells_in_row(&mut v1),
        (vec![4, 4, 4, 8, 0, 0, 0, 0], 8)
    );

    let mut v2 = vec![2, 4, 8, 2, 4, 8, 2, 4];
    assert_eq!(
        combine_paired_cells_in_row(&mut v2),
        (vec![2, 4, 8, 2, 4, 8, 2, 4], 0)
    );

    let mut v3 = vec![2, 4, 4, 4, 0, 0, 0, 0];
    assert_eq!(
        combine_paired_cells_in_row(&mut v3),
        (vec![2, 8, 4, 0, 0, 0, 0, 0], 8)
    );
}

#[test]
fn lib_test_transpose_identity_matrix() {
    let v1 = vec![
        vec![1, 0, 0, 0],
        vec![0, 1, 0, 0],
        vec![0, 0, 1, 0],
        vec![0, 0, 0, 1],
    ];
    assert_eq!(transpose(&v1), v1);
}

#[test]
fn lib_test_transpose_rectangular_matrix() {
    let v1 = vec![
        vec![1, 0, 2, 5, 1, 1],
        vec![0, 1, 3, 6, 2, 7],
        vec![3, 8, 5, 4, 1, 9],
        vec![0, 1, 0, 3, 0, 7],
    ];
    let expected = vec![
        vec![1, 0, 3, 0],
        vec![0, 1, 8, 1],
        vec![2, 3, 5, 0],
        vec![5, 6, 4, 3],
        vec![1, 2, 1, 0],
        vec![1, 7, 9, 7],
    ];
    assert_eq!(transpose(&v1), expected);
    assert_eq!(transpose(&transpose(&v1)), v1);
}

#[test]
fn lib_test_select_empty_cells() {
    let board = vec![
        vec![4, 0, 0, 0],
        vec![8, 2, 0, 0],
        vec![4, 4, 0, 0],
        vec![2, 4, 2, 4],
    ];

    assert_eq!(
        select_empty_cells(&board),
        vec![(0, 1), (0, 2), (0, 3), (1, 2), (1, 3), (2, 2), (2, 3)]
    );
}

const DRAW_SCALE_F: f64 = DRAW_SCALE as f64;

/// The draw that stands for the fraction `p` of [0, 1).
fn draw(p: f64) -> u64 {
    (p * DRAW_SCALE_F) as u64
}

fn tile_options() -> Vec<TileOption> {
    vec![
        TileOption {
            value: 2,
            probability: 10,
        },
        TileOption {
            value: 4,
            probability: 20,
        },
        TileOption {
            value: 8,
            probability: 30,
        },
        TileOption {
            value: 16,
            probability: 40,
        },
    ]
}

fn as_fractions(intervals: Vec<u32>) -> Vec<f64> {
    intervals.iter().map(|c| *c as f64 / 100.0).collect()
}

#[test]
fn lib_test_next_float() {
    let mut srng = create_simple_generator();
    let random_float = srng.next_fraction() as f64 / DRAW_SCALE_F;
    assert!(random_float >= 0.0 && random_float < 1.0);
}

#[test]
fn lib_test_next_in_range() {
    let mut srng = create_simple_generator();
    let random_int = srng.next_in_range(10..25);
    assert!(random_int >= 10 && random_int < 25);
}

#[test]
fn lib_test_random_tile_generator() {
    let random_tile_generator =
        RandomTileGenerator::new(tile_options(), create_simple_generator()).unwrap();

    assert_eq!(random_tile_generator.next_tile_internal(draw(0.61)), 16);
    assert_eq!(random_tile_generator.next_tile_internal(draw(0.35)), 8);
    assert_eq!(random_tile_generator.next_tile_internal(draw(0.25)), 4);
    assert_eq!(random_tile_generator.next_tile_internal(draw(0.09)), 2);
}

#[test]
fn lib_test_create_probability_intervals() {
    let probability_intervals_1 = create_probability_intervals(&tile_options());
    assert_eq!(
        as_fractions(probability_intervals_1.unwrap()),
        vec![0.1, 0.3, 0.6, 1.0]
    );

    let probability_intervals_2 = create_probability_intervals(&vec![
        TileOption {
            value: 2,
            probability: 30,
        },
        TileOption {
            value: 4,
            probability: 10,
        },
        TileOption {
            value: 8,
            probability: 35,
        },
        TileOption {
            value: 16,
            probability: 25,
        },
    ]);
    assert_eq!(
        as_fractions(probability_intervals_2.unwrap()),
        vec![0.3, 0.4, 0.75, 1.0]
    );

    let invalid_probability_intervals_1 = create_probability_intervals(&vec![
        TileOption {
            value: 2,
            probability: 30,
        },
        TileOption {
            value: 4,
            probability: 80,
        },
    ]);
    assert!(invalid_probability_intervals_1.is_err());

    let invalid_probability_intervals_2 = create_probability_intervals(&vec![
        TileOption {
            value: 2,
            probability: 30,
        },
        TileOption {
            value: 4,
            probability: 60,
        },
    ]);
    assert!(invalid_probability_intervals_2.is_err());
}

#[test]
fn test_create_random_tile() {
    let mut random_tile_generator =
        RandomTileGenerator::new(tile_options(), create_simple_generator()).unwrap();

    let board = vec![
        vec![4, 0, 0, 0],
        vec![8, 2, 0, 0],
        vec![4, 4, 0, 0],
        vec![2, 4, 2, 4],
    ];

    let empty_cells = select_empty_cells(&board);
    let new_board = create_random_tile(&board, &mut random_tile_generator).unwrap();
    let mut tile_row = 0;
    let mut tile_col = 0;
    for row in 0..board.len() {
        for col in 0..board[0].len() {
            if board[row][col] != new_board[row][col] {
                tile_row = row;
                tile_col = col;
                break;
            }
        }
    }

    assert!(empty_cells.contains(&(tile_row, tile_col)));
    assert!(vec![2, 4, 8, 16].contains(&new_board[tile_row][tile_col]));
}
