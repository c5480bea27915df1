use std::num::NonZeroU8;

use game2048::{Arrow, Board};

type Rows = [[Option<NonZeroU8>; 4]; 4];

fn board(rows: Rows) -> Board {
    Board::from_grid(rows.map(|row| row.map(|cell| cell.map(NonZeroU8::get))))
}

fn occupied(b: &Board) -> Vec<u8> {
    b.grid().iter().flatten().filter_map(|c| *c).collect()
}

#[test]
fn test_mergable() {
    let mergable_boards = [
        [
            [None; 4],
            [None; 4],
            [None, None, NonZeroU8::new(3), None],
            [None, None, NonZeroU8::new(3), None],
        ],
        [
            [None; 4],
            [None; 4],
            [None; 4],
            [None, None, NonZeroU8::new(1), NonZeroU8::new(1)],
        ],
    ];

    let unmergable_boards = [
        [
            [None; 4],
            [None; 4],
            [None, None, NonZeroU8::new(2), None],
            [None, None, NonZeroU8::new(3), None],
        ],
        [
            [None; 4],
            [None; 4],
            [None; 4],
            [None, None, NonZeroU8::new(2), NonZeroU8::new(1)],
        ],
        [[None; 4], [None; 4], [None; 4], [None; 4]],
    ];
    assert!(mergable_boards.into_iter().all(|b| board(b).is_mergable()));
    assert!(unmergable_boards.into_iter().all(|b| !board(b).is_mergable()));
}

#[test]
fn test_is_lost() {
    let lost_boards = [[
        [NonZeroU8::new(1), NonZeroU8::new(2), NonZeroU8::new(1), NonZeroU8::new(2)],
        [NonZeroU8::new(2), NonZeroU8::new(1), NonZeroU8::new(2), NonZeroU8::new(1)],
        [NonZeroU8::new(1), NonZeroU8::new(2), NonZeroU8::new(1), NonZeroU8::new(2)],
        [NonZeroU8::new(2), NonZeroU8::new(1), NonZeroU8::new(2), NonZeroU8::new(1)],
    ]];

    let not_yet_losts = [
        [
            [NonZeroU8::new(1), NonZeroU8::new(2), NonZeroU8::new(1), NonZeroU8::new(2)],
            [NonZeroU8::new(2), NonZeroU8::new(1), NonZeroU8::new(2), NonZeroU8::new(1)],
            [NonZeroU8::new(1), NonZeroU8::new(2), NonZeroU8::new(1), NonZeroU8::new(2)],
            [NonZeroU8::new(2), NonZeroU8::new(1), NonZeroU8::new(2), None],
        ],
        [
            [NonZeroU8::new(1), NonZeroU8::new(2), NonZeroU8::new(1), NonZeroU8::new(2)],
            [NonZeroU8::new(3), NonZeroU8::new(1), NonZeroU8::new(2), NonZeroU8::new(1)],
            [NonZeroU8::new(2), NonZeroU8::new(2), NonZeroU8::new(1), NonZeroU8::new(2)],
            [NonZeroU8::new(2), NonZeroU8::new(1), NonZeroU8::new(2), NonZeroU8::new(1)],
        ],
    ];

    assert!(lost_boards.into_iter().map(board).all(|b| b.is_lost()));
    assert!(not_yet_losts.into_iter().map(board).all(|b| !b.is_lost()));
}

#[test]
fn test_merge_squash() {
    let pairs = [
        (
            [
                [None, None, None, NonZeroU8::new(1)],
                [None; 4],
                [None, None, NonZeroU8::new(3), None],
                [None, None, NonZeroU8::new(3), NonZeroU8::new(1)],
            ],
            Arrow::Down,
            [
                [None; 4],
                [None; 4],
                [None; 4],
                [None, None, NonZeroU8::new(4), NonZeroU8::new(2)],
            ],
        ),
        (
            [[None; 4], [None; 4], [None; 4], [NonZeroU8::new(4); 4]],
            Arrow::Right,
            [
                [None; 4],
                [None; 4],
                [None; 4],
                [None, None, NonZeroU8::new(5), NonZeroU8::new(5)],
            ],
        ),
    ];
    assert!(pairs
        .into_iter()
        .map(|(left, op, right)| (board(left), op, board(right)))
        .all(|(mut left, op, right)| {
            left.merge(op);
            left == right
        }));
}

#[test]
fn new_board_has_two_tiles_of_exponent_one() {
    let mut rng = rand::thread_rng();
    for _ in 0..50 {
        let b = Board::new(&mut rng);
        assert_eq!(occupied(&b), vec![1, 1]);
    }
}

#[test]
fn squash_twice_equals_squash_once() {
    let start = Board::from_grid([
        [Some(1), None, Some(2), None],
        [None, Some(3), None, Some(3)],
        [Some(1), Some(1), None, Some(4)],
        [None, None, None, Some(2)],
    ]);
    for dir in [Arrow::Up, Arrow::Down, Arrow::Left, Arrow::Right] {
        let mut once = start;
        once.squash(dir);
        let mut twice = once;
        twice.squash(dir);
        assert_eq!(once, twice);
    }
}

#[test]
fn squash_left_packs_rows_in_order() {
    let mut b = Board::from_grid([
        [None, Some(1), None, Some(2)],
        [Some(3), None, None, Some(3)],
        [None; 4],
        [None, None, None, Some(5)],
    ]);
    b.squash(Arrow::Left);
    assert_eq!(
        b.grid(),
        [
            [Some(1), Some(2), None, None],
            [Some(3), Some(3), None, None],
            [None; 4],
            [Some(5), None, None, None],
        ]
    );
}

#[test]
fn squash_once_moves_far_pair_first() {
    let mut b = Board::from_grid([[None, Some(1), None, Some(2)], [None; 4], [None; 4], [None; 4]]);
    b.squash_once(Arrow::Left);
    assert_eq!(b.grid()[0], [Some(1), None, Some(2), None]);
}

#[test]
fn move_without_merges_keeps_tiles_and_order() {
    let mut b = Board::from_grid([[None, Some(1), None, Some(2)], [Some(3), None, Some(1), None], [None; 4], [None; 4]]);
    b.merge(Arrow::Right);
    assert_eq!(b.grid()[0], [None, None, Some(1), Some(2)]);
    assert_eq!(b.grid()[1], [None, None, Some(3), Some(1)]);
}

#[test]
fn three_equal_tiles_merge_the_pair_nearest_the_edge() {
    let mut up = Board::from_grid([[Some(2), None, None, None], [Some(2), None, None, None], [Some(2), None, None, None], [None; 4]]);
    up.merge(Arrow::Up);
    assert_eq!(up.grid().map(|row| row[0]), [Some(3), Some(2), None, None]);

    let mut left = Board::from_grid([[Some(2), Some(2), Some(2), None], [None; 4], [None; 4], [None; 4]]);
    left.merge(Arrow::Left);
    assert_eq!(left.grid()[0], [Some(3), Some(2), None, None]);

    let mut down = Board::from_grid([[Some(2), None, None, None], [Some(2), None, None, None], [Some(2), None, None, None], [None; 4]]);
    down.merge(Arrow::Down);
    assert_eq!(down.grid().map(|row| row[0]), [None, None, Some(2), Some(3)]);
}

#[test]
fn merged_tile_does_not_merge_again() {
    let mut b = Board::from_grid([[Some(2), Some(1), Some(1), None], [None; 4], [None; 4], [None; 4]]);
    b.merge(Arrow::Left);
    assert_eq!(b.grid()[0], [Some(2), Some(2), None, None]);
}

#[test]
fn merge_at_largest_exponent_saturates() {
    let mut b = Board::from_grid([[Some(255), Some(255), None, None], [None; 4], [None; 4], [None; 4]]);
    b.merge(Arrow::Left);
    assert_eq!(b.grid()[0], [Some(255), None, None, None]);
}

#[test]
fn gen_num_on_full_board_does_nothing() {
    let full = Board::from_grid([[Some(1), Some(2), Some(1), Some(2)], [Some(2), Some(1), Some(2), Some(1)], [Some(1), Some(2), Some(1), Some(2)], [Some(2), Some(1), Some(2), Some(1)]]);
    let mut b = full;
    let mut rng = rand::thread_rng();
    assert!(!b.gen_num(&mut rng));
    assert_eq!(b, full);
}

#[test]
fn gen_num_fills_one_empty_cell() {
    let mut rng = rand::thread_rng();
    for _ in 0..50 {
        let mut b = Board::from_grid([[Some(3), Some(3), Some(3), Some(3)], [Some(3), None, Some(3), Some(3)], [Some(3); 4], [Some(3), Some(3), None, Some(3)]]);
        assert!(b.gen_num(&mut rng));
        let g = b.grid();
        let placed = [g[1][1], g[3][2]];
        assert!(placed.iter().filter(|c| c.is_some()).count() == 1);
        assert!(placed.contains(&Some(1)) || placed.contains(&Some(2)));
        assert_eq!(occupied(&b).len(), 15);
    }
}

#[test]
fn spawn_at_places_exponent_by_size() {
    let mut b = Board::from_grid([[None; 4]; 4]);
    b.spawn_at(1, 2, false);
    b.spawn_at(3, 0, true);
    assert_eq!(b.grid()[1][2], Some(1));
    assert_eq!(b.grid()[3][0], Some(2));
    assert!(!b.is_full());
}

#[test]
fn with_tiles_at_places_two_tiles() {
    let b = Board::with_tiles_at((0, 3), (2, 1));
    assert_eq!(b.grid()[0][3], Some(1));
    assert_eq!(b.grid()[2][1], Some(1));
    assert_eq!(occupied(&b), vec![1, 1]);
}

#[test]
fn is_full_detects_one_gap() {
    let mut rows = [[Some(1u8); 4]; 4];
    assert!(Board::from_grid(rows).is_full());
    rows[2][3] = None;
    assert!(!Board::from_grid(rows).is_full());
}

#[test]
fn play_on_lost_position_reports_lost() {
    let mut b = Board::from_grid([[Some(1), Some(2), Some(1), Some(2)], [Some(2), Some(1), Some(2), Some(1)], [Some(1), Some(2), Some(1), Some(2)], [Some(2), Some(1), Some(2), Some(1)]]);
    let before = b;
    let mut rng = rand::thread_rng();
    assert!(b.play(Arrow::Left, &mut rng));
    assert_eq!(b, before);
}

#[test]
fn play_moves_then_spawns() {
    let mut rng = rand::thread_rng();
    let mut b = Board::from_grid([[Some(1), Some(1), None, None], [None; 4], [None; 4], [None; 4]]);
    assert!(!b.play(Arrow::Left, &mut rng));
    assert_eq!(b.grid()[0][0], Some(2));
    let tiles = occupied(&b);
    assert_eq!(tiles.len(), 2);
    assert!(tiles.contains(&2));
}

#[test]
fn new_boards_differ_between_calls() {
    let mut rng = rand::thread_rng();
    let first = Board::new(&mut rng);
    assert!((0..50).any(|_| Board::new(&mut rng) != first));
}

#[test]
fn gen_num_reaches_every_empty_cell_and_both_sizes() {
    let mut rng = rand::thread_rng();
    let mut cells = [false; 2];
    let mut sizes = [false; 2];
    for _ in 0..1000 {
        let mut b = Board::from_grid([[Some(3); 4], [Some(3), None, Some(3), Some(3)], [Some(3); 4], [Some(3), Some(3), None, Some(3)]]);
        assert!(b.gen_num(&mut rng));
        let g = b.grid();
        for (k, cell) in [g[1][1], g[3][2]].into_iter().enumerate() {
            if let Some(v) = cell {
                cells[k] = true;
                sizes[(v - 1) as usize] = true;
            }
        }
    }
    assert_eq!(cells, [true, true]);
    assert_eq!(sizes, [true, true]);
}
