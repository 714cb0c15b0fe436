//! The generation-advance engine.

pub mod band;
pub mod generation;
pub mod index;
pub mod life;
pub mod scan;
pub mod window;

pub use self::window::GameEngineWindow;

use self::band::{
    band_range, bands_for, is_merged_upto, lemma_merge_band, lemma_merged_all, merge_band,
};
use self::generation::{band_generation, generation, within_margin};
use self::index::{generate_gol_index, is_rule_table, GameOfLifeIndex};
use self::life::{
    is_next_generation, lemma_next_generation_unique, next_generation_of, strictly_sorted,
};
use crate::pos::{pos_lt, Pos2};
use vstd::prelude::*;

verus! {

/// Says whether `alive` is strictly increasing in row-major order: what an
/// alive set must be.
pub fn is_strictly_sorted(alive: &[Pos2]) -> (sorted: bool)
    ensures
        sorted == strictly_sorted(alive@),
{
    let mut i: usize = 1;
    while i < alive.len()
        invariant
            1 <= i,
            forall|j: int| 0 < j < i && j < alive@.len() ==> pos_lt(alive@[j - 1], #[trigger] alive@[j]),
        decreases alive@.len() - i,
    {
        if !alive[i - 1].before(&alive[i]) {
            return false;
        }
        i += 1;
    }
    proof {
        lemma_adjacent_sorted(alive@);
    }
    true
}

/// A sequence in which every element comes before the one after it is
/// strictly sorted.
proof fn lemma_adjacent_sorted(s: Seq<Pos2>)
    requires
        forall|j: int| 0 < j < s.len() ==> pos_lt(s[j - 1], #[trigger] s[j]),
    ensures
        strictly_sorted(s),
    decreases s.len(),
{
    if s.len() > 1 {
        let rest = s.drop_last();
        assert forall|j: int| 0 < j < rest.len() implies pos_lt(rest[j - 1], #[trigger] rest[j]) by {
            assert(pos_lt(s[j - 1], s[j]));
        }
        lemma_adjacent_sorted(rest);
        assert forall|i: int, j: int| 0 <= i < j < s.len() implies pos_lt(
            #[trigger] s[i],
            #[trigger] s[j],
        ) by {
            if j < s.len() - 1 {
                assert(pos_lt(rest[i], rest[j]));
            } else {
                assert(pos_lt(s[j - 1], s[j]));
                if i < j - 1 {
                    assert(pos_lt(rest[i], rest[j - 1]));
                }
            }
        }
    }
}

/// Says whether every cell of `alive` is within the margin that a generation
/// needs.
pub fn is_within_margin(alive: &[Pos2]) -> (within: bool)
    ensures
        within == within_margin(alive@),
{
    let mut i: usize = 0;
    while i < alive.len()
        invariant
            0 <= i <= alive@.len(),
            within_margin(alive@.take(i as int)),
        decreases alive@.len() - i,
    {
        let p = alive[i];
        if p.x < i32::MIN + 1 || p.x > i32::MAX - 3 || p.y < i32::MIN + 2 || p.y > i32::MAX - 2 {
            return false;
        }
        proof {
            assert forall|j: int| 0 <= j < i + 1 implies {
                &&& i32::MIN + 1 <= (#[trigger] alive@.take(i + 1)[j]).x <= i32::MAX - 3
                &&& i32::MIN + 2 <= alive@.take(i + 1)[j].y <= i32::MAX - 2
            } by {
                if j < i {
                    assert(alive@.take(i as int)[j] == alive@.take(i + 1)[j]);
                }
            }
        }
        i += 1;
    }
    proof {
        assert(alive@.take(alive@.len() as int) =~= alive@);
    }
    true
}

/// The game: the alive cells of the current generation, in row-major order.
#[derive(Debug)]
pub struct GameOfLife {
    alive: Vec<Pos2>,
    index: GameOfLifeIndex,
}

impl View for GameOfLife {
    type V = Seq<Pos2>;

    /// The alive cells in order.
    closed spec fn view(&self) -> Seq<Pos2> {
        self.alive@
    }
}

impl GameOfLife {
    #[verifier::type_invariant]
    spec fn well_formed(self) -> bool {
        &&& strictly_sorted(self.alive@)
        &&& is_rule_table(self.index)
    }

    /// Creates the game from its alive cells, which are sorted and hold no
    /// cell twice.
    #[inline]
    pub fn from_alive(alive: Vec<Pos2>) -> (game: Self)
        requires
            strictly_sorted(alive@),
        ensures
            game@ == alive@,
    {
        Self { alive, index: generate_gol_index() }
    }

    /// Replaces the alive cells by those of the next generation.
    pub fn next_generation(&mut self)
        requires
            within_margin(old(self)@),
        ensures
            is_next_generation(old(self)@, final(self)@),
            final(self)@ == next_generation_of(old(self)@),
    {
        proof {
            use_type_invariant(&*self);
        }
        let next = generation(self.alive.as_slice(), &self.index);
        self.alive = next;
    }

    /// Replaces the alive cells by those of the next generation, computed in
    /// bands: one for each of `workers`, but at least one and no more than
    /// there are cells.
    pub fn next_generation_parallel(&mut self, workers: usize)
        requires
            within_margin(old(self)@),
        ensures
            is_next_generation(old(self)@, final(self)@),
            final(self)@ == next_generation_of(old(self)@),
    {
        proof {
            use_type_invariant(&*self);
        }
        let len = self.alive.len();
        if len == 0 {
            proof {
                lemma_merged_all(self.alive@, self.alive@);
                lemma_next_generation_unique(self.alive@, self.alive@, self.alive@);
            }
            return ;
        }
        let bands = bands_for(len, workers);
        let mut merged: Vec<Pos2> = Vec::new();
        let ghost mut done: int = 0;
        let mut i: usize = 0;
        while i < bands
            invariant
                strictly_sorted(self.alive@),
                within_margin(self.alive@),
                is_rule_table(self.index),
                self.alive@ == old(self).alive@,
                len == self.alive@.len(),
                1 <= bands <= len,
                0 <= i <= bands,
                done == band::band_start(len as int, bands as int, i as int),
                0 <= done <= len,
                i == bands ==> done == len,
                is_merged_upto(self.alive@, done, merged@),
            decreases bands - i,
        {
            let (start, end) = band_range(len, bands, i);
            let next = band_generation(self.alive.as_slice(), &self.index, start, end);
            proof {
                lemma_merge_band(self.alive@, start as int, end as int, merged@, next@);
                band::lemma_band_starts(len as int, bands as int, i as int);
                done = end as int;
            }
            merge_band(&mut merged, &next);
            i += 1;
        }
        proof {
            lemma_merged_all(self.alive@, merged@);
            lemma_next_generation_unique(self.alive@, merged@, merged@);
        }
        self.alive = merged;
    }

    /// The cells of the rectangle from `top_left` to `bottom_right`, without
    /// its right column and bottom row.
    pub fn window(&self, top_left: Pos2, bottom_right: Pos2) -> (window: GameEngineWindow<'_>)
        ensures
            window.engine() == self@,
            window.top_left() == top_left,
            window.bottom_right() == bottom_right,
    {
        GameEngineWindow::new(self, top_left, bottom_right)
    }

    /// The rule table of the game.
    pub fn get_gol_index(&self) -> (index: &GameOfLifeIndex)
        ensures
            is_rule_table(*index),
    {
        proof {
            use_type_invariant(self);
        }
        &self.index
    }

    /// The number of alive cells.
    #[inline]
    pub fn alive_count(&self) -> (count: usize)
        ensures
            count == self@.len(),
    {
        self.alive.len()
    }

    /// Says whether the alive cells are within the margin that a generation
    /// needs.
    pub fn can_advance(&self) -> (within: bool)
        ensures
            within == within_margin(self@),
    {
        is_within_margin(self.alive.as_slice())
    }

    /// Gives up the game for its alive cells, in order.
    #[inline]
    pub fn take(self) -> (alive: Vec<Pos2>)
        ensures
            alive@ == self@,
            strictly_sorted(alive@),
    {
        proof {
            use_type_invariant(&self);
        }
        self.alive
    }

    /// The alive cells, in order.
    pub fn alive(&self) -> (alive: &[Pos2])
        ensures
            alive@ == self@,
            strictly_sorted(alive@),
    {
        proof {
            use_type_invariant(self);
        }
        self.alive.as_slice()
    }
}

} // verus!
