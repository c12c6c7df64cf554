//! The choice of a palette entry for one pixel.
//!
//! The distance of a colour to each palette entry is measured outside this
//! crate, in a perceptual colour space, and handed in as sixteen integers,
//! one for each entry in palette order. This module ranks the entries by
//! that distance. Entries of equal distance stay in palette order, so the
//! best match is the first entry with the least distance.

use vstd::prelude::*;
use crate::color::Color3b;
use crate::order::{
    by_rank, lemma_sort_contains, lemma_sort_head, lemma_sort_len, sort_stably, stable_sort,
    Ranked,
};
use crate::palette::{c64_palette, is_palette_color, palette_color};

verus! {

/// A palette entry as a candidate for a pixel: its distance to the colour
/// wanted, its index in the palette, and its colour.
#[derive(Clone, Copy, Debug, PartialEq, Eq, Structural)]
pub struct Candidate {
    pub distance: u32,
    pub entry: usize,
    pub color: Color3b,
}

impl Ranked for Candidate {
    /// Candidates at a smaller distance come first.
    open spec fn rank(&self) -> int {
        self.distance as int
    }

    fn ranks_no_later_than(&self, other: &Self) -> (b: bool) {
        self.distance <= other.distance
    }
}

/// The sixteen palette entries, in palette order, each with its distance.
pub open spec fn candidates(distances: Seq<u32>) -> Seq<Candidate> {
    Seq::new(
        16,
        |i: int| Candidate { distance: distances[i], entry: i as usize, color: c64_palette()[i] },
    )
}

/// The candidates by rising distance, candidates of equal distance in
/// palette order.
pub open spec fn error_table(distances: Seq<u32>) -> Seq<Candidate> {
    stable_sort(candidates(distances), by_rank::<Candidate>())
}

/// `e` is the index of the first palette entry with the least distance.
pub open spec fn is_best_entry(distances: Seq<u32>, e: int) -> bool {
    &&& 0 <= e < 16
    &&& forall|j: int| 0 <= j < 16 ==> distances[e] <= #[trigger] distances[j]
    &&& forall|j: int| 0 <= j < e ==> distances[e] < #[trigger] distances[j]
}

/// The table lists each palette entry with its own colour and distance,
/// and starts with the best entry.
pub proof fn lemma_error_table(distances: Seq<u32>)
    ensures
        error_table(distances).len() == 16,
        is_best_entry(distances, error_table(distances)[0].entry as int),
        forall|i: int|
            0 <= i < 16 ==> {
                &&& (#[trigger] error_table(distances)[i]).entry < 16
                &&& error_table(distances)[i].color == c64_palette()[error_table(
                    distances,
                )[i].entry as int]
                &&& error_table(distances)[i].distance == distances[error_table(
                    distances,
                )[i].entry as int]
                &&& is_palette_color(error_table(distances)[i].color)
            },
{
    let c = candidates(distances);
    let key = by_rank::<Candidate>();
    let table = error_table(distances);
    lemma_sort_len(c, key);
    let m = lemma_sort_head(c, key);
    assert(table[0] == c[m]);
    assert forall|j: int| 0 <= j < 16 implies distances[m] <= #[trigger] distances[j] by {
        assert(key(c[m]) <= key(c[j]));
    }
    assert forall|j: int| 0 <= j < m implies distances[m] < #[trigger] distances[j] by {
        assert(key(c[m]) < key(c[j]));
    }
    assert forall|i: int| 0 <= i < 16 implies {
        &&& (#[trigger] table[i]).entry < 16
        &&& table[i].color == c64_palette()[table[i].entry as int]
        &&& table[i].distance == distances[table[i].entry as int]
        &&& is_palette_color(table[i].color)
    } by {
        lemma_sort_contains(c, key, table[i]);
        assert(table.contains(table[i]));
        let j = choose|j: int| 0 <= j < c.len() && c[j] == table[i];
        assert(c64_palette()[j] == table[i].color);
    }
}

/// Ranks the palette entries for one pixel.
///
/// `distances[i]` is the distance of the colour wanted to palette entry
/// `i`. The result lists all sixteen entries by rising distance, entries of
/// equal distance in palette order; its first element is the best match.
pub fn rgbv_error_table(distances: &[u32; 16]) -> (errors: Vec<Candidate>)
    ensures
        errors@ == error_table(distances@),
        errors.len() == 16,
        is_best_entry(distances@, errors[0].entry as int),
        forall|i: int|
            0 <= i < 16 ==> {
                &&& (#[trigger] errors[i]).entry < 16
                &&& errors[i].color == c64_palette()[errors[i].entry as int]
                &&& errors[i].distance == distances[errors[i].entry as int]
                &&& is_palette_color(errors[i].color)
            },
{
    let mut errors: Vec<Candidate> = Vec::new();
    let mut i: usize = 0;
    while i < 16
        invariant
            i <= 16,
            errors.len() == i,
            forall|j: int| 0 <= j < i ==> errors[j] == candidates(distances@)[j],
        decreases 16 - i,
    {
        errors.push(Candidate { distance: distances[i], entry: i, color: palette_color(i) });
        i += 1;
    }
    assert(errors@ =~= candidates(distances@));
    sort_stably(&mut errors);
    proof {
        lemma_error_table(distances@);
    }
    errors
}

} // verus!
