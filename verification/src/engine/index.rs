//! The rule table: the next state of a cell for each 3x3 neighbourhood.

use vstd::prelude::*;

verus! {

/// The number of arrangements of a 3x3 grid of cells.
pub const PERMUTATIONS: usize = 512;

/// The bit of the centre cell in a neighbourhood.
pub const CENTER: usize = 16;

pub type GameOfLifeIndex = [bool; PERMUTATIONS];

/// The number of ones in the binary representation of `n`.
pub open spec fn ones(n: nat) -> nat
    decreases n,
{
    if n == 0 {
        0
    } else {
        (n % 2) + ones(n / 2)
    }
}

/// Bit `k` of the neighbourhood `grid`, as 0 or 1, for `k` below 9.
pub open spec fn grid_bit(grid: int, k: int) -> int {
    if k == 0 {
        grid % 2
    } else if k == 1 {
        (grid / 2) % 2
    } else if k == 2 {
        (grid / 4) % 2
    } else if k == 3 {
        (grid / 8) % 2
    } else if k == 4 {
        (grid / 16) % 2
    } else if k == 5 {
        (grid / 32) % 2
    } else if k == 6 {
        (grid / 64) % 2
    } else if k == 7 {
        (grid / 128) % 2
    } else {
        (grid / 256) % 2
    }
}

/// The number of alive cells around the centre of the neighbourhood `grid`.
pub open spec fn grid_neighbors(grid: int) -> int {
    grid_bit(grid, 0) + grid_bit(grid, 1) + grid_bit(grid, 2) + grid_bit(grid, 3) + grid_bit(
        grid,
        5,
    ) + grid_bit(grid, 6) + grid_bit(grid, 7) + grid_bit(grid, 8)
}

/// The rule of the game: a cell with three alive neighbours is alive in the next
/// generation, an alive cell with two alive neighbours stays alive, every other
/// cell is dead.
pub open spec fn next_state(grid: int) -> bool {
    grid_neighbors(grid) == 3 || (grid_bit(grid, 4) == 1 && grid_neighbors(grid) == 2)
}

/// Counts the ones in the binary representation of `n`.
fn count_ones(n: usize) -> (count: usize)
    ensures
        count == ones(n as nat),
{
    let mut rest = n;
    let mut count: usize = 0;
    while rest > 0
        invariant
            count + ones(rest as nat) == ones(n as nat),
            count + rest <= n,
        decreases rest,
    {
        count += rest % 2;
        rest = rest / 2;
    }
    count
}

/// The ones of a neighbourhood are its nine bits.
proof fn lemma_ones_of_grid(m: usize)
    requires
        m < 512,
    ensures
        ones(m as nat) == grid_bit(m as int, 0) + grid_bit(m as int, 1) + grid_bit(m as int, 2)
            + grid_bit(m as int, 3) + grid_bit(m as int, 4) + grid_bit(m as int, 5) + grid_bit(
            m as int,
            6,
        ) + grid_bit(m as int, 7) + grid_bit(m as int, 8),
{
    let q1 = m / 2;
    let q2 = q1 / 2;
    let q3 = q2 / 2;
    let q4 = q3 / 2;
    let q5 = q4 / 2;
    let q6 = q5 / 2;
    let q7 = q6 / 2;
    let q8 = q7 / 2;
    let q9 = q8 / 2;
    assert(q2 == m / 4 && q3 == m / 8 && q4 == m / 16 && q5 == m / 32 && q6 == m / 64 && q7 == m
        / 128 && q8 == m / 256 && q9 == 0) by (bit_vector)
        requires
            m < 512,
            q1 == m / 2,
            q2 == q1 / 2,
            q3 == q2 / 2,
            q4 == q3 / 2,
            q5 == q4 / 2,
            q6 == q5 / 2,
            q7 == q6 / 2,
            q8 == q7 / 2,
            q9 == q8 / 2,
    ;
    assert(ones(q9 as nat) == 0);
    assert(ones(q8 as nat) == q8 % 2 + ones(q9 as nat));
    assert(ones(q7 as nat) == q7 % 2 + ones(q8 as nat));
    assert(ones(q6 as nat) == q6 % 2 + ones(q7 as nat));
    assert(ones(q5 as nat) == q5 % 2 + ones(q6 as nat));
    assert(ones(q4 as nat) == q4 % 2 + ones(q5 as nat));
    assert(ones(q3 as nat) == q3 % 2 + ones(q4 as nat));
    assert(ones(q2 as nat) == q2 % 2 + ones(q3 as nat));
    assert(ones(q1 as nat) == q1 % 2 + ones(q2 as nat));
    assert(ones(m as nat) == m % 2 + ones(q1 as nat));
}

/// Clearing the centre bit leaves the bits of the neighbours as they are.
proof fn lemma_clear_center(i: usize)
    requires
        i < 512,
    ensures
        (i & !CENTER) < 512,
        (i & CENTER != 0) == (grid_bit(i as int, 4) == 1),
        grid_neighbors((i & !CENTER) as int) == grid_neighbors(i as int),
        grid_bit((i & !CENTER) as int, 4) == 0,
{
    let m = i & !CENTER;
    assert({
        &&& m < 512
        &&& (i & 16 != 0) == ((i / 16) % 2 == 1)
        &&& (m / 16) % 2 == 0
        &&& m % 2 == i % 2
        &&& (m / 2) % 2 == (i / 2) % 2
        &&& (m / 4) % 2 == (i / 4) % 2
        &&& (m / 8) % 2 == (i / 8) % 2
        &&& (m / 32) % 2 == (i / 32) % 2
        &&& (m / 64) % 2 == (i / 64) % 2
        &&& (m / 128) % 2 == (i / 128) % 2
        &&& (m / 256) % 2 == (i / 256) % 2
    }) by (bit_vector)
        requires
            i < 512,
            m == i & !16usize,
    ;
}

/// `index` is the rule table.
pub open spec fn is_rule_table(index: GameOfLifeIndex) -> bool {
    forall|grid: int| 0 <= grid < PERMUTATIONS ==> index[grid] == next_state(grid)
}

/// Looks up the next state of the centre cell of `neighborhood`.
pub fn lookup(index: &GameOfLifeIndex, neighborhood: usize) -> (alive: bool)
    requires
        is_rule_table(*index),
        neighborhood < PERMUTATIONS,
    ensures
        alive == next_state(neighborhood as int),
{
    index[neighborhood]
}

/// Creates the lookup table for the rule of the game.
///
/// The table is indexed by a 9-bit number that stands for a cell and its
/// neighbours; the centre cell is the middle bit, `CENTER`.
pub fn generate_gol_index() -> (indices: GameOfLifeIndex)
    ensures
        is_rule_table(indices),
{
    let mut indices = [false; PERMUTATIONS];
    let mut i: usize = 0;
    while i < PERMUTATIONS
        invariant
            i <= PERMUTATIONS,
            forall|grid: int| 0 <= grid < i ==> indices[grid] == next_state(grid),
        decreases PERMUTATIONS - i,
    {
        let neighbors = count_ones(i & !CENTER);
        let alive = i & CENTER != 0;
        proof {
            lemma_clear_center(i);
            lemma_ones_of_grid(i & !CENTER);
        }
        indices[i] = (alive && neighbors == 2) || neighbors == 3;
        i += 1;
    }
    indices
}

} // verus!
