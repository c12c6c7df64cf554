//! What the colour budget of a tile means.
//!
//! A tile is a square of 8 by 8 pixels whose corner coordinates are
//! multiples of 8. Its 64 colours are written as a sequence, row by row.
//! A tile may show at most four colours. Where it shows more, the four
//! with the most pixels stay, and every other pixel takes the colour with
//! the most pixels of all. Among colours with equally many pixels, the one
//! met first when the tile is read row by row goes first.

use vstd::prelude::*;
use vstd::seq_lib::*;
use vstd::set_lib::*;
use crate::color::Color3b;
use crate::order::{
    lemma_sort_contains, lemma_sort_len, lemma_sort_no_duplicates, stable_sort,
};
use crate::pairing::is_paired;
use crate::palette::{all_palette, is_palette_color};
use crate::raster::rectangular;

verus! {

/// The number of pixels of `t` that hold the colour `c`.
pub open spec fn count_of(t: Seq<Color3b>, c: Color3b) -> nat
    decreases t.len(),
{
    if t.len() == 0 {
        0
    } else {
        count_of(t.drop_last(), c) + if t.last() == c {
            1nat
        } else {
            0nat
        }
    }
}

/// The colours of `t`, each once, in the order in which they first occur.
pub open spec fn distinct_colors(t: Seq<Color3b>) -> Seq<Color3b>
    decreases t.len(),
{
    if t.len() == 0 {
        Seq::empty()
    } else {
        let d = distinct_colors(t.drop_last());
        if d.contains(t.last()) {
            d
        } else {
            d.push(t.last())
        }
    }
}

/// The key by which the colours of `t` are ranked: more pixels come first.
pub open spec fn by_population(t: Seq<Color3b>) -> spec_fn(Color3b) -> int {
    |c: Color3b| -(count_of(t, c) as int)
}

/// The colours of `t` by falling number of pixels, colours with equally
/// many pixels in the order of their first occurrence.
pub open spec fn ranking(t: Seq<Color3b>) -> Seq<Color3b> {
    stable_sort(distinct_colors(t), by_population(t))
}

/// `c` is one of the first four colours of the ranking of `t`.
pub open spec fn survives(t: Seq<Color3b>, c: Color3b) -> bool {
    exists|i: int| 0 <= i < 4 && i < ranking(t).len() && #[trigger] ranking(t)[i] == c
}

/// The colour that a pixel of colour `c` has after the reduction of `t`.
pub open spec fn reduced_color(t: Seq<Color3b>, c: Color3b) -> Color3b {
    if survives(t, c) {
        c
    } else {
        ranking(t)[0]
    }
}

/// The tile `t` after its reduction.
pub open spec fn reduced_tile(t: Seq<Color3b>) -> Seq<Color3b> {
    Seq::new(t.len(), |k: int| reduced_color(t, t[k]))
}

/// The tile in column `tx` and row `ty` of the grid of tiles of `rows`.
pub open spec fn tile_at(rows: Seq<Seq<Color3b>>, tx: int, ty: int) -> Seq<Color3b> {
    Seq::new(64, |k: int| rows[8 * ty + k / 8][8 * tx + k % 8])
}

/// The pixel `(x, y)` lies in a whole tile of an image of the given rows.
pub open spec fn in_tiles(rows: Seq<Seq<Color3b>>, width: nat, x: int, y: int) -> bool {
    0 <= x < 8 * (width / 8) && 0 <= y < 8 * (rows.len() / 8)
}

/// The colour of the pixel `(x, y)` after the reduction of every whole
/// tile. Pixels outside the whole tiles keep their colour.
pub open spec fn reduced_pixel(rows: Seq<Seq<Color3b>>, width: nat, x: int, y: int) -> Color3b {
    if in_tiles(rows, width, x, y) {
        reduced_color(tile_at(rows, x / 8, y / 8), rows[y][x])
    } else {
        rows[y][x]
    }
}

/// The image after the reduction of every whole tile.
pub open spec fn reduced(rows: Seq<Seq<Color3b>>, width: nat) -> Seq<Seq<Color3b>> {
    Seq::new(rows.len(), |y: int| Seq::new(width, |x: int| reduced_pixel(rows, width, x, y)))
}

/// Every tile of the image shows at most four colours.
pub open spec fn within_budget(rows: Seq<Seq<Color3b>>, width: nat) -> bool {
    forall|tx: int, ty: int|
        0 <= tx < width / 8 && 0 <= ty < rows.len() / 8 ==> distinct_colors(
            #[trigger] tile_at(rows, tx, ty),
        ).len() <= 4
}

/// The distinct colours of a tile are its colours, each once.
pub proof fn lemma_distinct_colors(t: Seq<Color3b>)
    ensures
        distinct_colors(t).no_duplicates(),
        distinct_colors(t).len() <= t.len(),
        forall|c: Color3b| distinct_colors(t).contains(c) <==> t.contains(c),
    decreases t.len(),
{
    if t.len() > 0 {
        let rest = t.drop_last();
        let d = distinct_colors(rest);
        lemma_distinct_colors(rest);
        assert forall|c: Color3b| distinct_colors(t).contains(c) <==> t.contains(c) by {
            if t.contains(c) {
                let k = choose|k: int| 0 <= k < t.len() && t[k] == c;
                if k < t.len() - 1 {
                    assert(rest[k] == c);
                    assert(rest.contains(c));
                    assert(d.contains(c));
                }
                if d.contains(c) {
                    let j = choose|j: int| 0 <= j < d.len() && d[j] == c;
                    assert(distinct_colors(t)[j] == c);
                } else {
                    assert(k == t.len() - 1);
                    assert(distinct_colors(t)[d.len() as int] == c);
                }
            }
            if distinct_colors(t).contains(c) {
                let j = choose|j: int| 0 <= j < distinct_colors(t).len() && distinct_colors(t)[j] == c;
                if j < d.len() {
                    assert(d[j] == c);
                    assert(d.contains(c));
                    assert(rest.contains(c));
                    let k = choose|k: int| 0 <= k < rest.len() && rest[k] == c;
                    assert(t[k] == c);
                } else {
                    assert(t[t.len() - 1] == c);
                }
            }
        }
    }
}

/// The ranking of a tile holds its colours, each once.
pub proof fn lemma_ranking(t: Seq<Color3b>)
    ensures
        ranking(t).no_duplicates(),
        ranking(t).len() == distinct_colors(t).len(),
        forall|c: Color3b| ranking(t).contains(c) <==> t.contains(c),
        t.len() > 0 ==> ranking(t).len() > 0,
{
    lemma_distinct_colors(t);
    lemma_sort_no_duplicates(distinct_colors(t), by_population(t));
    lemma_sort_len(distinct_colors(t), by_population(t));
    assert forall|c: Color3b| ranking(t).contains(c) <==> t.contains(c) by {
        lemma_sort_contains(distinct_colors(t), by_population(t), c);
    }
    if t.len() > 0 {
        assert(t.contains(t[0]));
        assert(distinct_colors(t).contains(t[0]));
    }
}

/// A colour of the tile survives exactly if it stands among the first four
/// of the ranking; a colour that stands behind them does not survive.
pub proof fn lemma_survivors(t: Seq<Color3b>, i: int)
    requires
        0 <= i < ranking(t).len(),
    ensures
        survives(t, ranking(t)[i]) <==> i < 4,
{
    lemma_ranking(t);
    if survives(t, ranking(t)[i]) {
        let j = choose|j: int| 0 <= j < 4 && j < ranking(t).len() && #[trigger] ranking(t)[j] == ranking(t)[i];
        assert(j == i);
    }
}

/// After the reduction every pixel of the tile holds a surviving colour.
pub proof fn lemma_reduced_color_survives(t: Seq<Color3b>, c: Color3b)
    requires
        t.contains(c),
    ensures
        survives(t, reduced_color(t, c)),
        t.contains(reduced_color(t, c)),
{
    lemma_ranking(t);
    if !survives(t, c) {
        assert(ranking(t)[0] == ranking(t)[0]);
        assert(ranking(t).contains(ranking(t)[0]));
    }
}

/// A sequence whose colours all occur in `k` has at most as many distinct
/// colours as `k` is long.
pub proof fn lemma_distinct_bound(s: Seq<Color3b>, k: Seq<Color3b>)
    requires
        forall|i: int| 0 <= i < s.len() ==> k.contains(#[trigger] s[i]),
    ensures
        distinct_colors(s).len() <= k.len(),
{
    let d = distinct_colors(s);
    lemma_distinct_colors(s);
    d.unique_seq_to_set();
    k.lemma_cardinality_of_set();
    seq_to_set_is_finite(k);
    assert(d.to_set().subset_of(k.to_set())) by {
        assert forall|c: Color3b| d.to_set().contains(c) implies k.to_set().contains(c) by {
            assert(d.contains(c));
            assert(s.contains(c));
            let i = choose|i: int| 0 <= i < s.len() && s[i] == c;
            assert(k.contains(s[i]));
        }
    }
    lemma_len_subset(d.to_set(), k.to_set());
}

/// A reduced tile shows at most four colours.
pub proof fn lemma_reduced_tile_budget(t: Seq<Color3b>)
    ensures
        distinct_colors(reduced_tile(t)).len() <= 4,
{
    let r = ranking(t);
    let keep = if r.len() < 4 {
        r
    } else {
        r.take(4)
    };
    let s = reduced_tile(t);
    assert forall|i: int| 0 <= i < s.len() implies keep.contains(#[trigger] s[i]) by {
        assert(t.contains(t[i]));
        lemma_reduced_color_survives(t, t[i]);
        let j = choose|j: int| 0 <= j < 4 && j < r.len() && #[trigger] r[j] == s[i];
        assert(keep[j] == s[i]);
    }
    lemma_distinct_bound(s, keep);
}

/// The reduction leaves a tile of at most four colours as it is.
pub proof fn lemma_few_colors_fixed(t: Seq<Color3b>)
    requires
        distinct_colors(t).len() <= 4,
    ensures
        reduced_tile(t) == t,
        forall|c: Color3b| t.contains(c) ==> reduced_color(t, c) == c,
{
    lemma_ranking(t);
    assert forall|c: Color3b| t.contains(c) implies reduced_color(t, c) == c by {
        assert(ranking(t).contains(c));
        let j = choose|j: int| 0 <= j < ranking(t).len() && ranking(t)[j] == c;
        assert(ranking(t)[j] == c);
        assert(survives(t, c));
    }
    assert forall|k: int| 0 <= k < t.len() implies reduced_tile(t)[k] == t[k] by {
        assert(t.contains(t[k]));
    }
    assert(reduced_tile(t) =~= t);
}

/// Reducing a reduced tile changes nothing.
pub proof fn lemma_reduced_tile_idempotent(t: Seq<Color3b>)
    ensures
        reduced_tile(reduced_tile(t)) == reduced_tile(t),
{
    lemma_reduced_tile_budget(t);
    lemma_few_colors_fixed(reduced_tile(t));
}

/// The tile of the reduced image is the reduced tile of the image.
pub proof fn lemma_tile_of_reduced(rows: Seq<Seq<Color3b>>, width: nat, tx: int, ty: int)
    requires
        rectangular(rows, width),
        0 <= tx < width / 8,
        0 <= ty < rows.len() / 8,
    ensures
        tile_at(reduced(rows, width), tx, ty) == reduced_tile(tile_at(rows, tx, ty)),
{
    let a = tile_at(reduced(rows, width), tx, ty);
    let t = tile_at(rows, tx, ty);
    assert forall|k: int| 0 <= k < 64 implies a[k] == reduced_tile(t)[k] by {
        let x = 8 * tx + k % 8;
        let y = 8 * ty + k / 8;
        assert(in_tiles(rows, width, x, y));
        assert(x / 8 == tx && y / 8 == ty);
        assert(reduced(rows, width)[y][x] == reduced_pixel(rows, width, x, y));
        assert(t[k] == rows[y][x]);
    }
    assert(a =~= reduced_tile(t));
}

/// After the reduction every whole tile of the image shows at most four
/// colours.
pub proof fn reduction_meets_budget(rows: Seq<Seq<Color3b>>, width: nat)
    requires
        rectangular(rows, width),
    ensures
        within_budget(reduced(rows, width), width),
{
    assert forall|tx: int, ty: int|
        0 <= tx < width / 8 && 0 <= ty < reduced(rows, width).len() / 8 implies distinct_colors(
        #[trigger] tile_at(reduced(rows, width), tx, ty),
    ).len() <= 4 by {
        lemma_tile_of_reduced(rows, width, tx, ty);
        lemma_reduced_tile_budget(tile_at(rows, tx, ty));
    }
}

/// An image whose whole tiles all show at most four colours is left as it
/// is by the reduction.
pub proof fn reduction_keeps_images_within_budget(rows: Seq<Seq<Color3b>>, width: nat)
    requires
        rectangular(rows, width),
        within_budget(rows, width),
    ensures
        reduced(rows, width) == rows,
{
    let out = reduced(rows, width);
    assert forall|y: int| 0 <= y < rows.len() implies out[y] == rows[y] by {
        assert forall|x: int| 0 <= x < width implies out[y][x] == rows[y][x] by {
            if in_tiles(rows, width, x, y) {
                let t = tile_at(rows, x / 8, y / 8);
                let k = 8 * (y - 8 * (y / 8)) + (x - 8 * (x / 8));
                assert(t[k] == rows[y][x]);
                assert(t.contains(rows[y][x]));
                lemma_few_colors_fixed(t);
            }
        }
        assert(out[y] =~= rows[y]);
    }
    assert(out =~= rows);
}

/// Reducing the tiles of an image twice gives what reducing them once
/// gives.
pub proof fn reduction_is_idempotent(rows: Seq<Seq<Color3b>>, width: nat)
    requires
        rectangular(rows, width),
    ensures
        reduced(reduced(rows, width), width) == reduced(rows, width),
{
    reduction_meets_budget(rows, width);
    reduction_keeps_images_within_budget(reduced(rows, width), width);
}

/// The reduction keeps the two pixels of a pair in one colour.
pub proof fn reduction_keeps_pairs(rows: Seq<Seq<Color3b>>, width: nat)
    requires
        rectangular(rows, width),
        is_paired(rows),
    ensures
        is_paired(reduced(rows, width)),
{
    let out = reduced(rows, width);
    assert forall|x: int, y: int|
        0 <= y < out.len() && 0 <= x && x % 2 == 0 && x + 1 < out[y].len() implies #[trigger] out[y][x]
        == out[y][x + 1] by {
        assert(rows[y][x] == rows[y][x + 1]);
        assert(out[y][x] == reduced_pixel(rows, width, x, y));
        assert(out[y][x + 1] == reduced_pixel(rows, width, x + 1, y));
        assert(in_tiles(rows, width, x, y) == in_tiles(rows, width, x + 1, y));
        assert(x / 8 == (x + 1) / 8);
    }
}

/// The reduction brings no colour into the image: an image of palette
/// colours stays one.
pub proof fn reduction_keeps_palette(rows: Seq<Seq<Color3b>>, width: nat)
    requires
        rectangular(rows, width),
        all_palette(rows),
    ensures
        all_palette(reduced(rows, width)),
{
    let out = reduced(rows, width);
    assert forall|x: int, y: int|
        0 <= y < out.len() && 0 <= x < out[y].len() implies is_palette_color(
        #[trigger] out[y][x],
    ) by {
        assert(out[y][x] == reduced_pixel(rows, width, x, y));
        assert(is_palette_color(rows[y][x]));
        if in_tiles(rows, width, x, y) {
            let t = tile_at(rows, x / 8, y / 8);
            let k = 8 * (y - 8 * (y / 8)) + (x - 8 * (x / 8));
            assert(t[k] == rows[y][x]);
            assert(t.contains(rows[y][x]));
            lemma_reduced_color_survives(t, rows[y][x]);
            let c = reduced_color(t, rows[y][x]);
            let j = choose|j: int| 0 <= j < t.len() && t[j] == c;
            assert(t[j] == rows[8 * (y / 8) + j / 8][8 * (x / 8) + j % 8]);
            assert(is_palette_color(rows[8 * (y / 8) + j / 8][8 * (x / 8) + j % 8]));
        }
    }
}

} // verus!
