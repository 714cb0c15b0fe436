use cgolrs::engine::generation::NextGeneration;
use cgolrs::engine::index::{generate_gol_index, lookup};
use cgolrs::engine::scan::{safe_option_min, upper_bound, MultiRowPosCursor, PosCursor};
use cgolrs::{GameOfLife, Pos2};

fn cells(points: &[(i32, i32)]) -> Vec<Pos2> {
    points.iter().map(|&(x, y)| Pos2 { x, y }).collect()
}

fn at(x: i32, y: i32) -> Pos2 {
    Pos2 { x, y }
}

#[test]
fn rule_table_has_the_rule_of_the_game() {
    let index = generate_gol_index();
    assert_eq!(index.len(), 512);
    // nothing alive
    assert!(!index[0]);
    // three neighbours give birth
    assert!(index[0b000_000_111]);
    assert!(index[0b100_000_101]);
    // an alive cell stays with two or three neighbours
    assert!(index[0b000_010_011]);
    assert!(index[0b001_010_011]);
    // two neighbours give no birth
    assert!(!index[0b000_000_011]);
    // one neighbour or four are too few or too many
    assert!(!index[0b000_010_001]);
    assert!(!index[0b000_011_111]);
    assert!(!index[0b111_111_111]);
    assert!(!index[0b000_010_000]);
    // 56 ways to have three neighbours, alive or not, and 28 to have two
    assert_eq!(index.iter().filter(|&&alive| alive).count(), 56 * 2 + 28);
    for grid in 0..512usize {
        let neighbors = (grid & !16).count_ones();
        let alive = grid & 16 != 0;
        assert_eq!(lookup(&index, grid), neighbors == 3 || (alive && neighbors == 2));
    }
    let game = GameOfLife::from_alive(Vec::new());
    assert_eq!(game.get_gol_index(), &index);
}

#[test]
fn neighbourhood_packs_three_bits_of_each_row() {
    let index = generate_gol_index();
    // the lowest three bits of each buffer count, the rest do not
    assert!(NextGeneration::next_cell_state(&index, &[0b111, 0, 0]));
    assert!(NextGeneration::next_cell_state(&index, &[0b1111_1000 | 0b001, 0b010, 0b100]));
    assert!(NextGeneration::next_cell_state(&index, &[0b001, 0b010, 0b001]));
    assert!(!NextGeneration::next_cell_state(&index, &[0b001, 0b000, 0b001]));
    assert!(!NextGeneration::next_cell_state(&index, &[0b1111_1000, 0b1111_1000, 0b1111_1000]));
    assert!(!NextGeneration::next_cell_state(&index, &[0b111, 0b111, 0b111]));
}

#[test]
fn upper_bound_counts_the_cells_up_to_a_position() {
    let alive = cells(&[(0, 0), (1, 0), (5, 0), (0, 1)]);
    assert_eq!(upper_bound(&alive, at(-1, 0)), 0);
    assert_eq!(upper_bound(&alive, at(0, 0)), 1);
    assert_eq!(upper_bound(&alive, at(3, 0)), 2);
    assert_eq!(upper_bound(&alive, at(5, 0)), 3);
    assert_eq!(upper_bound(&alive, at(-9, 1)), 3);
    assert_eq!(upper_bound(&alive, at(0, 1)), 4);
    assert_eq!(upper_bound(&alive, at(0, -1)), 0);
    assert_eq!(upper_bound(&[], at(0, 0)), 0);
}

#[test]
fn option_min_prefers_a_present_position() {
    assert_eq!(safe_option_min(Some(at(1, 1)), None), Some(at(1, 1)));
    assert_eq!(safe_option_min(None, Some(at(1, 1))), Some(at(1, 1)));
    assert_eq!(safe_option_min(None, None), None);
    assert_eq!(safe_option_min(Some(at(9, 0)), Some(at(0, 1))), Some(at(9, 0)));
    assert_eq!(safe_option_min(Some(at(0, 1)), Some(at(9, 0))), Some(at(9, 0)));
    assert_eq!(safe_option_min(Some(at(2, 3)), Some(at(2, 3))), Some(at(2, 3)));
}

#[test]
fn row_cursor_scans_a_row() {
    let alive = cells(&[(0, 0), (1, 0), (5, 0), (0, 1)]);
    let mut cursor = PosCursor::new(&alive, at(-2, 0));
    assert_eq!(cursor.cursor(), at(-2, 0));
    assert_eq!(cursor.bit_buffer(), 0);
    assert_eq!(cursor.next_present(), Some(at(0, 0)));
    assert_eq!(cursor.next(), 0);
    assert_eq!(cursor.next(), 0b1);
    assert_eq!(cursor.next_present(), Some(at(1, 0)));
    assert_eq!(cursor.next(), 0b11);
    assert_eq!(cursor.next(), 0b110);
    assert_eq!(cursor.next_present(), Some(at(5, 0)));
    assert_eq!(cursor.cursor(), at(2, 0));
    for _ in 0..3 {
        cursor.next();
    }
    assert_eq!(cursor.bit_buffer(), 0b110001);
    assert_eq!(cursor.next_present(), Some(at(0, 1)));
    // the cursor stays in its row
    for _ in 0..8 {
        cursor.next();
    }
    assert_eq!(cursor.bit_buffer(), 0);
    assert_eq!(cursor.cursor(), at(13, 0));
    assert_eq!(cursor.next_present(), Some(at(0, 1)));
}

#[test]
fn row_cursor_seeks_forward_and_back() {
    let alive = cells(&[(0, 0), (1, 0), (5, 0), (0, 1)]);
    let mut cursor = PosCursor::new(&alive, at(0, 0));
    assert_eq!(cursor.bit_buffer(), 1);
    // between the tracked elements the index is kept
    assert_eq!(cursor.seek(at(0, 0)), 1);
    assert_eq!(cursor.next_present(), Some(at(1, 0)));
    // onto the next tracked element
    assert_eq!(cursor.seek(at(1, 0)), 0b11);
    assert_eq!(cursor.next_present(), Some(at(5, 0)));
    assert_eq!(cursor.seek(at(4, 0)), 0b11000);
    // anywhere else, also back
    assert_eq!(cursor.seek(at(0, 1)), 1);
    assert_eq!(cursor.next_present(), None);
    assert_eq!(cursor.seek(at(12, 0)), 0b10000000);
    assert_eq!(cursor.seek(at(13, 0)), 0);
    assert_eq!(cursor.seek(at(7, 0)), 0b11000100);
    assert_eq!(cursor.seek(at(-1, 0)), 0);
    assert_eq!(cursor.next_present(), Some(at(0, 0)));
    assert_eq!(cursor.seek(at(3, -5)), 0);
    assert_eq!(cursor.cursor(), at(3, -5));
    assert_eq!(cursor.next(), 0);
}

#[test]
fn row_cursor_over_nothing() {
    let mut cursor = PosCursor::new(&[], at(4, 4));
    assert_eq!(cursor.bit_buffer(), 0);
    assert_eq!(cursor.next_present(), None);
    assert_eq!(cursor.next(), 0);
    assert_eq!(cursor.seek(at(-4, 9)), 0);
    assert_eq!(cursor.next_present(), None);
    assert_eq!(cursor.cursor(), at(-4, 9));
}

#[test]
fn multi_row_cursor_starts_at_the_first_cell() {
    let alive = cells(&[(0, 0), (1, 0), (5, 0), (0, 1)]);
    let cursor = MultiRowPosCursor::new(&alive, 3);
    assert_eq!(cursor.cursor(), at(0, 0));
    assert_eq!(cursor.buffers(), &[0, 0, 1]);
    assert_eq!(cursor.to_text(), "00000000 00000000 00000001 ");
}

#[test]
fn multi_row_cursor_steps_and_shifts() {
    let alive = cells(&[(0, 0), (1, 0), (5, 0), (0, 1)]);
    let mut cursor = MultiRowPosCursor::new(&alive, 3);
    assert_eq!(cursor.next(), &[0, 0, 0b11]);
    assert_eq!(cursor.cursor(), at(1, 0));
    assert_eq!(cursor.next(), &[0, 0, 0b110]);
    assert_eq!(cursor.next(), &[0, 0, 0b1100]);
    assert_eq!(cursor.next(), &[0, 0, 0b11000]);
    assert_eq!(cursor.next(), &[0, 0, 0b110001]);
    assert_eq!(cursor.cursor(), at(5, 0));
    for _ in 0..3 {
        cursor.next();
    }
    // the cell at column 0 has left the buffer
    assert_eq!(cursor.buffers(), &[0, 0, 0b10001000]);
    cursor.next();
    assert_eq!(cursor.buffers(), &[0, 0, 0b00010000]);
}

#[test]
fn multi_row_cursor_seeks_and_rebuilds() {
    let alive = cells(&[(0, 0), (1, 0), (5, 0), (0, 1)]);
    let mut cursor = MultiRowPosCursor::new(&alive, 3);
    assert_eq!(cursor.seek(at(5, 0)), &[0, 0, 0b110001]);
    assert_eq!(cursor.seek(at(1, 1)), &[0, 0b11, 0b10]);
    assert_eq!(cursor.seek(at(7, 2)), &[0b11000100, 0b10000000, 0]);
    assert_eq!(cursor.seek(at(8, 2)), &[0b10001000, 0, 0]);
    assert_eq!(cursor.seek(at(9, 2)), &[0b00010000, 0, 0]);
    assert_eq!(cursor.seek(at(-1, 0)), &[0, 0, 0]);
    assert_eq!(cursor.seek(at(0, 0)), &[0, 0, 1]);
    assert_eq!(cursor.cursor(), at(0, 0));
}

#[test]
fn multi_row_cursor_skips_to_the_closest_cell() {
    let alive = cells(&[(0, 0), (1, 0), (5, 0), (0, 1)]);
    let mut cursor = MultiRowPosCursor::new(&alive, 3);
    cursor.seek(at(5, 0));
    // the middle row meets (0, 0) and the bottom row (0, 1) with the bottom at (0, 1)
    assert_eq!(cursor.seek_closest(), Some(&[0u8, 1, 1][..]));
    assert_eq!(cursor.cursor(), at(0, 1));
    // next the middle row meets (1, 0)
    assert_eq!(cursor.seek_closest(), Some(&[0u8, 0b11, 0b10][..]));
    assert_eq!(cursor.cursor(), at(1, 1));
    assert_eq!(cursor.seek_closest(), Some(&[0u8, 0b110001, 0b100000][..]));
    assert_eq!(cursor.cursor(), at(5, 1));
    // then only the top row has cells left: those of row 0, and then that of row 1
    assert_eq!(cursor.seek_closest(), Some(&[1u8, 1, 0][..]));
    assert_eq!(cursor.cursor(), at(0, 2));
    assert_eq!(cursor.seek_closest(), Some(&[0b11u8, 0b10, 0][..]));
    assert_eq!(cursor.seek_closest(), Some(&[0b110001u8, 0b100000, 0][..]));
    assert_eq!(cursor.cursor(), at(5, 2));
    assert_eq!(cursor.seek_closest(), Some(&[1u8, 0, 0][..]));
    assert_eq!(cursor.cursor(), at(0, 3));
    assert_eq!(cursor.seek_closest(), None);
    assert_eq!(cursor.cursor(), at(0, 3));
}

#[test]
fn multi_row_cursor_over_cells_near_the_last_row() {
    // only the first cell needs room above it
    let alive = cells(&[(0, i32::MIN + 2), (7, i32::MAX)]);
    let mut cursor = MultiRowPosCursor::new(&alive, 3);
    assert_eq!(cursor.cursor(), at(0, i32::MIN + 2));
    assert_eq!(cursor.buffers(), &[0, 0, 1]);
    assert_eq!(cursor.next(), &[0, 0, 0b10]);
    assert_eq!(cursor.seek(at(8, i32::MAX)), &[0, 0, 0b10]);
    assert_eq!(cursor.cursor(), at(8, i32::MAX));
}

#[test]
fn scan_ends_once_and_for_all() {
    let index = generate_gol_index();
    let alive = cells(&[(0, 0), (1, 0), (0, 1), (1, 1)]);
    let mut scan = NextGeneration::new(&alive, &index);
    let mut yielded = Vec::new();
    while let Some(pos) = scan.next() {
        yielded.push(pos);
    }
    assert_eq!(yielded, alive);
    let end = scan.pos();
    assert!(end >= at(1, 1));
    for _ in 0..3 {
        assert_eq!(scan.next(), None);
        assert_eq!(scan.step(), None);
        assert_eq!(scan.pos(), end);
    }
}

#[test]
fn scan_moves_one_column_next_to_an_alive_cell() {
    let index = generate_gol_index();
    let alive = cells(&[(0, 0), (9, 0)]);
    let mut scan = NextGeneration::new(&alive, &index);
    // the cell (0, 0) lies below and right of the first centre
    assert_eq!(scan.pos(), at(-1, -1));
    assert_eq!(scan.step(), Some((at(0, -1), false)));
    assert_eq!(scan.step(), Some((at(1, -1), false)));
    // nothing lies around (1, -1) any more: on to the cell left of and above (9, 0)
    assert_eq!(scan.step(), Some((at(2, -1), false)));
    assert_eq!(scan.step(), Some((at(8, -1), false)));
    assert_eq!(scan.step(), Some((at(9, -1), false)));
    assert_eq!(scan.step(), Some((at(10, -1), false)));
    assert_eq!(scan.step(), Some((at(11, -1), false)));
    // and on to the next row, left of (0, 0)
    assert_eq!(scan.step(), Some((at(-1, 0), false)));
}

#[test]
fn multi_row_cursor_over_nothing() {
    let mut cursor = MultiRowPosCursor::new(&[], 3);
    assert_eq!(cursor.cursor(), at(0, 0));
    assert_eq!(cursor.buffers(), &[0, 0, 0]);
    assert_eq!(cursor.next(), &[0, 0, 0]);
    assert_eq!(cursor.seek_closest(), None);
    let alive = cells(&[(4, 4)]);
    let mut none = MultiRowPosCursor::new(&alive, 0);
    assert_eq!(none.cursor(), at(0, 0));
    assert_eq!(none.next(), &[] as &[u8]);
    assert_eq!(none.seek_closest(), None);
    assert_eq!(none.to_text(), "");
    let mut one = MultiRowPosCursor::new(&alive, 1);
    assert_eq!(one.buffers(), &[1]);
    assert_eq!(one.next(), &[0b10]);
    assert_eq!(one.seek_closest(), None);
}

#[test]
fn scan_yields_the_next_generation_in_order() {
    let index = generate_gol_index();
    let alive = cells(&[(1, 0), (1, 1), (1, 2)]);
    let mut scan = NextGeneration::new(&alive, &index);
    assert_eq!(scan.pos(), at(0, -1));
    assert_eq!(scan.next(), Some(at(0, 1)));
    assert_eq!(scan.pos(), at(0, 1));
    assert_eq!(scan.next(), Some(at(1, 1)));
    assert_eq!(scan.next(), Some(at(2, 1)));
    assert_eq!(scan.next(), None);
    assert_eq!(scan.next(), None);
}

#[test]
fn scan_steps_over_dead_cells_too() {
    let index = generate_gol_index();
    let alive = cells(&[(0, 0), (1, 0), (0, 1)]);
    let mut scan = NextGeneration::new(&alive, &index);
    assert_eq!(scan.step(), Some((at(0, -1), false)));
    assert_eq!(scan.step(), Some((at(1, -1), false)));
    assert_eq!(scan.step(), Some((at(2, -1), false)));
    assert_eq!(scan.step(), Some((at(3, -1), false)));
    // the empty rest of the row is skipped
    assert_eq!(scan.step(), Some((at(-1, 0), false)));
    assert_eq!(scan.step(), Some((at(0, 0), true)));
    assert_eq!(scan.step(), Some((at(1, 0), true)));
    assert_eq!(scan.step(), Some((at(2, 0), false)));
    assert_eq!(scan.step(), Some((at(3, 0), false)));
    assert_eq!(scan.step(), Some((at(-1, 1), false)));
    assert_eq!(scan.step(), Some((at(0, 1), true)));
    assert_eq!(scan.step(), Some((at(1, 1), true)));
}

#[test]
fn scan_starts_at_a_cell_of_a_band() {
    let index = generate_gol_index();
    let alive = cells(&[(0, 0), (1, 0), (0, 1), (1, 1), (9, 9)]);
    let mut scan = NextGeneration::starting_at(&alive, &index, 2);
    assert_eq!(scan.pos(), at(-1, 0));
    assert_eq!(scan.next(), Some(at(0, 0)));
    assert_eq!(scan.next(), Some(at(1, 0)));
    assert_eq!(scan.next(), Some(at(0, 1)));
    assert_eq!(scan.next(), Some(at(1, 1)));
    assert_eq!(scan.next(), None);
}

#[test]
fn window_draws_blocks_in_lines() {
    let game = GameOfLife::from_alive(cells(&[(-1, 0), (0, 0), (1, 1), (2, 2)]));
    assert_eq!(game.window(at(0, 0), at(3, 3)).to_text(), "\u{2588}\n \u{2588}\n  \u{2588}");
    assert_eq!(game.window(at(-1, 0), at(3, 2)).to_text(), "\u{2588}\u{2588}\n  \u{2588}");
    assert_eq!(game.window(at(-3, -2), at(1, 1)).to_text(), "\n\n  \u{2588}\u{2588}");
    assert_eq!(game.window(at(5, 5), at(9, 9)).to_text(), "");
    let row = GameOfLife::from_alive(cells(&[(0, 0), (3, 0), (4, 0)]));
    assert_eq!(row.window(at(0, 0), at(9, 9)).to_text(), "\u{2588}  \u{2588}\u{2588}");
}

#[test]
fn positions_add_and_compare() {
    assert_eq!(Pos2::zero(), at(0, 0));
    assert_eq!(Pos2::one(), at(1, 1));
    assert_eq!(Pos2::default(), at(0, 0));
    assert_eq!(at(3, -4) + at(-1, 9), at(2, 5));
    assert_eq!(at(3, -4) - at(-1, 9), at(4, -13));
    assert_eq!(-at(3, -4), at(-3, 4));
    assert!(at(9, 0) < at(0, 1));
    assert!(at(0, 1) < at(1, 1));
    assert!(at(1, 1) <= at(1, 1));
    assert!(at(1, 1) > at(0, 1));
    assert!(at(0, 1).before(&at(1, 1)));
    assert!(!at(1, 1).before(&at(1, 1)));
    assert!(!at(0, 2).before(&at(5, 1)));
}
