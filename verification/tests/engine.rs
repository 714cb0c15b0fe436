use cgolrs::engine::band::{band_range, bands_for, merge_band};
use cgolrs::engine::generation::{band_generation, generation};
use cgolrs::engine::index::generate_gol_index;
use cgolrs::engine::{is_strictly_sorted, is_within_margin, GameOfLife};
use cgolrs::Pos2;

fn cells(points: &[(i32, i32)]) -> Vec<Pos2> {
    let mut alive: Vec<Pos2> = points.iter().map(|&(x, y)| Pos2 { x, y }).collect();
    alive.sort_by(|a, b| a.partial_cmp(b).unwrap());
    alive.dedup();
    alive
}

/// A fixed pseudo-random set of cells in a square of the given side.
fn scattered(count: usize, side: i32, seed: u64) -> Vec<Pos2> {
    let mut state = seed;
    let mut points = Vec::new();
    while points.len() < count {
        state = state.wrapping_mul(6364136223846793005).wrapping_add(1442695040888963407);
        let x = ((state >> 33) % side as u64) as i32;
        state = state.wrapping_mul(6364136223846793005).wrapping_add(1442695040888963407);
        let y = ((state >> 33) % side as u64) as i32;
        if !points.contains(&(x, y)) {
            points.push((x, y));
        }
    }
    cells(&points)
}

/// The next generation by counting the neighbours of every cell of a box.
fn brute_force(alive: &[Pos2]) -> Vec<Pos2> {
    let mut next = Vec::new();
    if alive.is_empty() {
        return next;
    }
    let min_x = alive.iter().map(|p| p.x).min().unwrap() - 1;
    let max_x = alive.iter().map(|p| p.x).max().unwrap() + 1;
    let min_y = alive.iter().map(|p| p.y).min().unwrap() - 1;
    let max_y = alive.iter().map(|p| p.y).max().unwrap() + 1;
    for y in min_y..=max_y {
        for x in min_x..=max_x {
            let mut count = 0;
            for dy in -1..=1 {
                for dx in -1..=1 {
                    if (dx, dy) != (0, 0) && alive.contains(&Pos2 { x: x + dx, y: y + dy }) {
                        count += 1;
                    }
                }
            }
            let here = alive.contains(&Pos2 { x, y });
            if count == 3 || (here && count == 2) {
                next.push(Pos2 { x, y });
            }
        }
    }
    next
}

fn advance(alive: &[Pos2]) -> Vec<Pos2> {
    let mut game = GameOfLife::from_alive(alive.to_vec());
    assert!(game.can_advance());
    game.next_generation();
    game.take()
}

fn advance_parallel(alive: &[Pos2], workers: usize) -> Vec<Pos2> {
    let mut game = GameOfLife::from_alive(alive.to_vec());
    assert!(game.can_advance());
    game.next_generation_parallel(workers);
    game.take()
}

#[test]
fn block_is_stable() {
    let block = cells(&[(0, 0), (1, 0), (0, 1), (1, 1)]);
    assert_eq!(advance(&block), block);
    assert_eq!(advance(&advance(&block)), block);
}

#[test]
fn blinker_oscillates() {
    let vertical = cells(&[(1, 0), (1, 1), (1, 2)]);
    let horizontal = cells(&[(0, 1), (1, 1), (2, 1)]);
    assert_eq!(advance(&vertical), horizontal);
    assert_eq!(advance(&horizontal), vertical);
    let mut game = GameOfLife::from_alive(vertical.clone());
    for round in 0..6 {
        game.next_generation();
        let expected = if round % 2 == 0 { &horizontal } else { &vertical };
        assert_eq!(game.alive(), expected.as_slice());
    }
}

#[test]
fn glider_moves_diagonally() {
    let glider = cells(&[(1, 0), (2, 1), (0, 2), (1, 2), (2, 2)]);
    let mut game = GameOfLife::from_alive(glider.clone());
    for _ in 0..4 {
        game.next_generation();
    }
    let moved: Vec<Pos2> = glider.iter().map(|p| Pos2 { x: p.x + 1, y: p.y + 1 }).collect();
    assert_eq!(game.alive_count(), 5);
    assert_eq!(game.take(), moved);
}

#[test]
fn lonely_cells_die() {
    assert_eq!(advance(&cells(&[(5, -7)])), Vec::<Pos2>::new());
    assert_eq!(advance(&cells(&[(0, 0), (1, 0)])), Vec::<Pos2>::new());
    assert_eq!(advance(&[]), Vec::<Pos2>::new());
}

#[test]
fn birth_needs_exactly_three() {
    // an L of three cells fills its corner
    assert_eq!(
        advance(&cells(&[(0, 0), (1, 0), (0, 1)])),
        cells(&[(0, 0), (1, 0), (0, 1), (1, 1)])
    );
    // a cell with four neighbours dies
    let plus = cells(&[(1, 0), (0, 1), (1, 1), (2, 1), (1, 2)]);
    assert!(!advance(&plus).contains(&Pos2 { x: 1, y: 1 }));
}

#[test]
fn negative_and_far_coordinates() {
    let blinker = cells(&[(-100_000, -5), (-100_000, -4), (-100_000, -3)]);
    assert_eq!(
        advance(&blinker),
        cells(&[(-100_001, -4), (-100_000, -4), (-99_999, -4)])
    );
    let far = cells(&[(i32::MAX - 3, i32::MAX - 2), (i32::MIN + 1, i32::MIN + 2)]);
    assert!(is_within_margin(&far));
    assert_eq!(advance(&far), Vec::<Pos2>::new());
}

#[test]
fn serial_matches_brute_force() {
    for seed in 1..6 {
        let alive = scattered(70, 12, seed);
        assert_eq!(advance(&alive), brute_force(&alive));
    }
    let sparse = scattered(60, 400, 99);
    assert_eq!(advance(&sparse), brute_force(&sparse));
}

#[test]
fn parallel_equals_serial_on_small_sets() {
    for workers in 0..5 {
        assert_eq!(advance_parallel(&[], workers), Vec::<Pos2>::new());
        let single = cells(&[(3, 3)]);
        assert_eq!(advance_parallel(&single, workers), advance(&single));
        let pair = cells(&[(3, 3), (4, 3)]);
        assert_eq!(advance_parallel(&pair, workers), advance(&pair));
        let block = cells(&[(0, 0), (1, 0), (0, 1), (1, 1)]);
        assert_eq!(advance_parallel(&block, workers), block);
    }
}

#[test]
fn parallel_equals_serial_on_scattered_sets() {
    for seed in 1..5 {
        let alive = scattered(80, 14, seed);
        assert!(alive.len() >= 60);
        let serial = advance(&alive);
        for workers in [1, 2, 3, 4, 7, 16, 79, 80, 81, 1000] {
            assert_eq!(advance_parallel(&alive, workers), serial);
        }
    }
}

#[test]
fn output_is_sorted_and_unique() {
    for seed in 10..14 {
        let alive = scattered(90, 15, seed);
        assert!(is_strictly_sorted(&advance(&alive)));
        assert!(is_strictly_sorted(&advance_parallel(&alive, 5)));
    }
}

#[test]
fn split_at_every_index_finds_births_across_the_cut() {
    let index = generate_gol_index();
    let alive = scattered(64, 11, 7);
    let serial = generation(&alive, &index);
    assert_eq!(serial, brute_force(&alive));
    for mid in 1..alive.len() {
        let mut merged = band_generation(&alive, &index, 0, mid);
        let right = band_generation(&alive, &index, mid, alive.len());
        merge_band(&mut merged, &right);
        assert_eq!(merged, serial);
    }
}

#[test]
fn blinker_split_between_its_cells() {
    // the births left and right of the middle cell need cells of both halves
    let index = generate_gol_index();
    let alive = cells(&[(1, 0), (1, 1), (1, 2)]);
    let expected = cells(&[(0, 1), (1, 1), (2, 1)]);
    for mid in 1..3 {
        let mut merged = band_generation(&alive, &index, 0, mid);
        merge_band(&mut merged, &band_generation(&alive, &index, mid, 3));
        assert_eq!(merged, expected);
    }
}

#[test]
fn band_output_is_bounded_by_its_cells() {
    let index = generate_gol_index();
    // two blinkers far apart: each band yields only its own
    let alive = cells(&[(0, 0), (1, 0), (2, 0), (0, 50), (1, 50), (2, 50)]);
    assert_eq!(band_generation(&alive, &index, 0, 3), cells(&[(1, -1), (1, 0), (1, 1)]));
    assert_eq!(band_generation(&alive, &index, 3, 6), cells(&[(1, 49), (1, 50), (1, 51)]));
}

#[test]
fn merge_drops_the_overlap() {
    let mut merged = cells(&[(0, 0), (5, 0), (1, 1)]);
    merge_band(&mut merged, &cells(&[(5, 0), (1, 1), (2, 1), (0, 3)]));
    assert_eq!(merged, cells(&[(0, 0), (5, 0), (1, 1), (2, 1), (0, 3)]));
    let mut empty = Vec::new();
    merge_band(&mut empty, &cells(&[(2, 2)]));
    assert_eq!(empty, cells(&[(2, 2)]));
    let mut kept = cells(&[(9, 9)]);
    merge_band(&mut kept, &cells(&[(1, 1), (9, 9)]));
    assert_eq!(kept, cells(&[(9, 9)]));
    merge_band(&mut kept, &Vec::new());
    assert_eq!(kept, cells(&[(9, 9)]));
}

#[test]
fn bands_are_nearly_equal() {
    assert_eq!(band_range(10, 3, 0), (0, 4));
    assert_eq!(band_range(10, 3, 1), (4, 7));
    assert_eq!(band_range(10, 3, 2), (7, 10));
    assert_eq!(band_range(5, 5, 4), (4, 5));
    assert_eq!(band_range(7, 1, 0), (0, 7));
    assert_eq!(band_range(11, 4, 2), (6, 9));
    assert_eq!(band_range(11, 4, 3), (9, 11));
}

#[test]
fn band_count_is_clamped() {
    assert_eq!(bands_for(10, 0), 1);
    assert_eq!(bands_for(10, 1), 1);
    assert_eq!(bands_for(10, 4), 4);
    assert_eq!(bands_for(10, 10), 10);
    assert_eq!(bands_for(10, 11), 10);
    assert_eq!(bands_for(1, usize::MAX), 1);
}

#[test]
fn cells_sort_in_row_major_order() {
    let mut alive = vec![
        Pos2 { x: 5, y: 1 },
        Pos2 { x: 0, y: 2 },
        Pos2 { x: 9, y: 0 },
        Pos2 { x: -3, y: 1 },
    ];
    alive.sort();
    assert_eq!(alive, cells(&[(9, 0), (-3, 1), (5, 1), (0, 2)]));
    assert!(is_strictly_sorted(&alive));
    assert_eq!(alive.iter().max(), Some(&Pos2 { x: 0, y: 2 }));
}

#[test]
fn window_filters_the_rectangle() {
    let game = GameOfLife::from_alive(cells(&[(-1, 0), (0, 0), (1, 1), (2, 2)]));
    let window = game.window(Pos2 { x: 0, y: 0 }, Pos2 { x: 2, y: 2 });
    assert_eq!(window.iter(), cells(&[(0, 0), (1, 1)]));
    let all = game.window(Pos2 { x: -5, y: -5 }, Pos2 { x: 5, y: 5 });
    assert_eq!(all.iter(), cells(&[(-1, 0), (0, 0), (1, 1), (2, 2)]));
    let none = game.window(Pos2 { x: 2, y: 2 }, Pos2 { x: 2, y: 2 });
    assert_eq!(none.iter(), Vec::<Pos2>::new());
    let flipped = game.window(Pos2 { x: 3, y: 3 }, Pos2 { x: -3, y: -3 });
    assert_eq!(flipped.iter(), Vec::<Pos2>::new());
}

#[test]
fn sortedness_is_row_major_and_strict() {
    assert!(is_strictly_sorted(&[]));
    assert!(is_strictly_sorted(&[Pos2 { x: 9, y: 0 }, Pos2 { x: -9, y: 1 }]));
    assert!(!is_strictly_sorted(&[Pos2 { x: 0, y: 1 }, Pos2 { x: 5, y: 0 }]));
    assert!(!is_strictly_sorted(&[Pos2 { x: 1, y: 1 }, Pos2 { x: 1, y: 1 }]));
}

#[test]
fn margin_is_exact() {
    assert!(is_within_margin(&[Pos2 { x: i32::MIN + 1, y: i32::MIN + 2 }]));
    assert!(is_within_margin(&[Pos2 { x: i32::MAX - 3, y: i32::MAX - 2 }]));
    assert!(!is_within_margin(&[Pos2 { x: i32::MIN, y: 0 }]));
    assert!(!is_within_margin(&[Pos2 { x: i32::MAX - 2, y: 0 }]));
    assert!(!is_within_margin(&[Pos2 { x: 0, y: i32::MIN + 1 }]));
    assert!(!is_within_margin(&[Pos2 { x: 0, y: i32::MAX - 1 }]));
}
