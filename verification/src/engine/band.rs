//! The banded driver: the alive set is cut into bands of neighbouring cells,
//! each band is computed on its own, and the results are merged in order.

use crate::engine::life::{
    alive_at, is_band_generation, is_next_generation, lemma_nothing_after_last,
    lemma_reached_earlier, lives_next, precedes, splits_at, strictly_sorted,
};
use crate::engine::scan::upper_bound;
use crate::pos::{pos_le, pos_lt, Pos2};
use vstd::prelude::*;

verus! {

/// The number of bands for `len` cells and `workers` workers: one band for
/// each worker, but at least one band and no more bands than cells.
pub open spec fn band_count(len: int, workers: int) -> int {
    if workers > len {
        len
    } else if workers < 1 {
        1
    } else {
        workers
    }
}

/// The number of bands for `len` cells, of which there is at least one, and
/// `workers` workers.
pub fn bands_for(len: usize, workers: usize) -> (bands: usize)
    requires
        len > 0,
    ensures
        bands == band_count(len as int, workers as int),
        1 <= bands <= len,
{
    if workers > len {
        len
    } else if workers < 1 {
        1
    } else {
        workers
    }
}

/// The index of the first cell of band `i` of `bands`: each band has
/// `len / bands` cells, and the first `len % bands` bands have one more.
pub open spec fn band_start(len: int, bands: int, i: int) -> int {
    i * (len / bands) + if i < len % bands {
        i
    } else {
        len % bands
    }
}

/// The bands follow one another, none is empty, and together they hold every
/// cell.
pub proof fn lemma_band_starts(len: int, bands: int, i: int)
    requires
        1 <= bands <= len,
        0 <= i < bands,
    ensures
        band_start(len, bands, 0) == 0,
        band_start(len, bands, bands) == len,
        0 <= band_start(len, bands, i) < band_start(len, bands, i + 1) <= len,
        band_start(len, bands, i + 1) - band_start(len, bands, i) == len / bands + if i < len
            % bands {
            1int
        } else {
            0int
        },
{
    let size = len / bands;
    let extra = len % bands;
    assert(len == bands * size + extra && 0 <= extra < bands && size >= 1) by (nonlinear_arith)
        requires
            1 <= bands <= len,
            size == len / bands,
            extra == len % bands,
    ;
    assert((i + 1) * size == i * size + size && 0 <= i * size && (i + 1) * size <= bands * size)
        by (nonlinear_arith)
        requires
            0 <= i < bands,
            size >= 1,
    ;
}

/// The range of cells of band `i` of `bands`, as the index of its first cell
/// and the index after its last.
pub fn band_range(len: usize, bands: usize, i: usize) -> (range: (usize, usize))
    requires
        1 <= bands <= len,
        i < bands,
    ensures
        range.0 == band_start(len as int, bands as int, i as int),
        range.1 == band_start(len as int, bands as int, i + 1),
        range.0 < range.1 <= len,
{
    let size = len / bands;
    let extra = len % bands;
    proof {
        lemma_band_starts(len as int, bands as int, i as int);
        assert(0 <= i * size <= len) by (nonlinear_arith)
            requires
                0 <= i < bands,
                size >= 0,
                bands * size <= len,
        {
            assert(i * size <= bands * size);
        }
        assert(bands * size <= len) by (nonlinear_arith)
            requires
                1 <= bands,
                size == len / bands,
                len >= 0,
        ;
    }
    let start = i * size + if i < extra {
        i
    } else {
        extra
    };
    let end = start + size + if i < extra {
        1
    } else {
        0
    };
    (start, end)
}

/// The positions after `p`.
pub open spec fn after(p: Pos2) -> spec_fn(Pos2) -> bool {
    |q: Pos2| pos_lt(p, q)
}

/// What merging `band` into `merged` gives: `merged`, followed by the cells
/// of `band` that come after the last cell of `merged`.
pub open spec fn merged_with(merged: Seq<Pos2>, band: Seq<Pos2>) -> Seq<Pos2> {
    if merged.len() == 0 {
        band
    } else {
        merged + band.filter(after(merged.last()))
    }
}

/// The cells after `p` of a sequence that is split at `p` are those from the
/// split on.
proof fn lemma_filter_suffix(band: Seq<Pos2>, p: Pos2, k: int)
    requires
        splits_at(band, p, k),
    ensures
        band.filter(after(p)) == band.skip(k),
    decreases band.len(),
{
    reveal(Seq::filter);
    if band.len() == 0 {
        assert(band.filter(after(p)) =~= band.skip(k));
    } else {
        let rest = band.drop_last();
        let last = band.last();
        if k == band.len() {
            assert(pos_le(band[k - 1], p));
            lemma_filter_suffix(rest, p, k - 1);
            assert(rest.skip(k - 1) =~= band.skip(k));
        } else {
            assert(pos_lt(p, band[band.len() - 1]));
            lemma_filter_suffix(rest, p, k);
            assert(rest.skip(k).push(last) =~= band.skip(k));
        }
    }
}

/// Appends to `merged` the cells of `band` that come after its last cell.
///
/// Both are sorted, so the place in `band` is found by binary search, and the
/// overlap of the two is dropped without sorting again.
pub fn merge_band(merged: &mut Vec<Pos2>, band: &Vec<Pos2>)
    requires
        strictly_sorted(band@),
    ensures
        final(merged)@ == merged_with(old(merged)@, band@),
{
    let from = if merged.len() == 0 {
        0
    } else {
        let last = merged[merged.len() - 1];
        let from = upper_bound(band.as_slice(), last);
        proof {
            lemma_filter_suffix(band@, last, from as int);
        }
        from
    };
    let mut i = from;
    while i < band.len()
        invariant
            from <= i <= band@.len(),
            merged@ == old(merged)@ + band@.subrange(from as int, i as int),
        decreases band@.len() - i,
    {
        merged.push(band[i]);
        i += 1;
    }
    proof {
        assert(band@.subrange(from as int, band@.len() as int) =~= band@.skip(from as int));
        if old(merged)@.len() == 0 {
            assert(merged@ =~= band@);
        }
    }
}

/// `merged` is the next generation as far as the first `end` cells of `s`
/// reach: the strictly sorted sequence of the cells that live next up to the
/// cell below and right of `s[end - 1]`.
pub open spec fn is_merged_upto(s: Seq<Pos2>, end: int, merged: Seq<Pos2>) -> bool {
    &&& strictly_sorted(merged)
    &&& forall|x: int, y: int| #[trigger]
        alive_at(merged, x, y) <==> {
            &&& end > 0
            &&& lives_next(s, x, y)
            &&& !precedes(s[end - 1].x + 1, s[end - 1].y + 1, x, y)
        }
}

/// A sorted sequence splits at every position.
proof fn lemma_split_exists(band: Seq<Pos2>, p: Pos2) -> (k: int)
    requires
        strictly_sorted(band),
    ensures
        splits_at(band, p, k),
    decreases band.len(),
{
    if band.len() == 0 {
        0
    } else if pos_le(band.last(), p) {
        assert forall|i: int| 0 <= i < band.len() implies pos_le(#[trigger] band[i], p) by {
            if i < band.len() - 1 {
                assert(pos_lt(band[i], band[band.len() - 1]));
            }
        }
        band.len() as int
    } else {
        let rest = band.drop_last();
        assert forall|i: int, j: int| 0 <= i < j < rest.len() implies pos_lt(
            #[trigger] rest[i],
            #[trigger] rest[j],
        ) by {
            assert(rest[i] == band[i] && rest[j] == band[j]);
        }
        let k = lemma_split_exists(rest, p);
        assert forall|i: int| 0 <= i < k implies pos_le(#[trigger] band[i], p) by {
            assert(rest[i] == band[i]);
        }
        assert forall|i: int| k <= i < band.len() implies pos_lt(p, #[trigger] band[i]) by {
            if i < rest.len() {
                assert(rest[i] == band[i]);
            }
        }
        k
    }
}

/// The cells of a merge are those of `merged` and those of `band` after the
/// last cell of `merged`, and the merge is sorted.
proof fn lemma_merged_cells(merged: Seq<Pos2>, band: Seq<Pos2>)
    requires
        strictly_sorted(merged),
        strictly_sorted(band),
        merged.len() > 0,
    ensures
        strictly_sorted(merged_with(merged, band)),
        forall|x: int, y: int| #[trigger]
            alive_at(merged_with(merged, band), x, y) <==> alive_at(merged, x, y) || (alive_at(
                band,
                x,
                y,
            ) && precedes(merged.last().x as int, merged.last().y as int, x, y)),
{
    let last = merged.last();
    let k = lemma_split_exists(band, last);
    lemma_filter_suffix(band, last, k);
    let rest = band.skip(k);
    let all = merged + rest;
    assert(all == merged_with(merged, band));
    assert forall|i: int, j: int| 0 <= i < j < all.len() implies pos_lt(
        #[trigger] all[i],
        #[trigger] all[j],
    ) by {
        if j < merged.len() {
            assert(all[i] == merged[i] && all[j] == merged[j]);
        } else {
            assert(all[j] == band[j - merged.len() + k]);
            assert(pos_lt(last, band[j - merged.len() + k]));
            if i < merged.len() {
                assert(all[i] == merged[i]);
                if i < merged.len() - 1 {
                    assert(pos_lt(merged[i], merged[merged.len() - 1]));
                }
            } else {
                assert(all[i] == band[i - merged.len() + k]);
            }
        }
    }
    assert forall|x: int, y: int| #[trigger]
        alive_at(all, x, y) <==> alive_at(merged, x, y) || (alive_at(band, x, y) && precedes(
            last.x as int,
            last.y as int,
            x,
            y,
        )) by {
        if alive_at(all, x, y) {
            let i = choose|i: int| 0 <= i < all.len() && (#[trigger] all[i]).x == x && all[i].y == y;
            if i < merged.len() {
                assert(all[i] == merged[i]);
            } else {
                assert(all[i] == band[i - merged.len() + k]);
                assert(pos_lt(last, band[i - merged.len() + k]));
            }
        }
        if alive_at(merged, x, y) {
            let i = choose|i: int| 0 <= i < merged.len() && (#[trigger] merged[i]).x == x && merged[i].y == y;
            assert(all[i] == merged[i]);
        }
        if alive_at(band, x, y) && precedes(last.x as int, last.y as int, x, y) {
            let i = choose|i: int| 0 <= i < band.len() && (#[trigger] band[i]).x == x && band[i].y == y;
            if i < k {
                assert(pos_le(band[i], last));
            }
            assert(all[merged.len() + i - k] == band[i]);
        }
    }
}

/// Merging the next band keeps the merge right, wherever the alive set was
/// cut: a cell next to cells of both bands is found by at least one of them,
/// and what both found is kept once.
pub proof fn lemma_merge_band(
    s: Seq<Pos2>,
    end: int,
    next_end: int,
    merged: Seq<Pos2>,
    band: Seq<Pos2>,
)
    requires
        strictly_sorted(s),
        0 <= end < next_end <= s.len(),
        is_merged_upto(s, end, merged),
        is_band_generation(s, end, next_end, band),
    ensures
        is_merged_upto(s, next_end, merged_with(merged, band)),
{
    let all = merged_with(merged, band);
    if end > 0 {
        assert(pos_lt(s[end - 1], s[next_end - 1]));
    }
    if merged.len() > 0 {
        let last = merged.last();
        assert(alive_at(merged, last.x as int, last.y as int));
        lemma_merged_cells(merged, band);
    }
    assert forall|x: int, y: int| #[trigger]
        alive_at(all, x, y) <==> {
            &&& next_end > 0
            &&& lives_next(s, x, y)
            &&& !precedes(s[next_end - 1].x + 1, s[next_end - 1].y + 1, x, y)
        } by {
        if lives_next(s, x, y) && !precedes(s[next_end - 1].x + 1, s[next_end - 1].y + 1, x, y)
            && !alive_at(merged, x, y) {
            if !precedes(s[end].x - 1, s[end].y - 1, x, y) {
                let j = lemma_reached_earlier(s, end, x, y);
                if j < end - 1 {
                    assert(pos_lt(s[j], s[end - 1]));
                }
            }
            assert(alive_at(band, x, y));
        }
    }
}

/// A merge that reaches the last cell is the next generation.
pub proof fn lemma_merged_all(s: Seq<Pos2>, merged: Seq<Pos2>)
    requires
        strictly_sorted(s),
        is_merged_upto(s, s.len() as int, merged),
    ensures
        is_next_generation(s, merged),
{
    lemma_nothing_after_last(s);
}

/// The alive set may be cut anywhere: the band before the cut merged with the
/// band after it is the next generation.
pub proof fn lemma_split_anywhere(s: Seq<Pos2>, mid: int, left: Seq<Pos2>, right: Seq<Pos2>)
    requires
        strictly_sorted(s),
        0 < mid < s.len(),
        is_band_generation(s, 0, mid, left),
        is_band_generation(s, mid, s.len() as int, right),
    ensures
        is_next_generation(s, merged_with(left, right)),
{
    let none = Seq::<Pos2>::empty();
    assert(is_merged_upto(s, 0, none));
    lemma_merge_band(s, 0, mid, none, left);
    lemma_merge_band(s, mid, s.len() as int, left, right);
    lemma_merged_all(s, merged_with(left, right));
}

} // verus!
