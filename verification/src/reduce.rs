//! The reduction of every whole tile of an image to four colours.

use vstd::prelude::*;
use crate::block::{
    absorbable, absorbed, fix_pixel_block, hit, ranked, repainted, tail_count, ColorGroup,
};
use crate::color::Color3b;
use crate::order::{by_rank, lemma_sort_contains, lemma_sort_len, lemma_sort_map};
use crate::raster::{image_rows, image_width, rectangular, Image};
use crate::tile::{
    by_population, count_of, distinct_colors, in_tiles, lemma_few_colors_fixed, lemma_ranking,
    lemma_survivors, ranking, reduced, reduced_color, reduction_meets_budget, survives, tile_at,
    within_budget,
};

verus! {

/// The colours of a list of pixels `(x, y, colour)`.
spec fn colors_of(pixel: Seq<(u32, u32, Color3b)>) -> Seq<Color3b> {
    Seq::new(pixel.len(), |k: int| pixel[k].2)
}

/// The coordinates of the pixels of `pixel` that hold `c`, in list order.
spec fn points_of(pixel: Seq<(u32, u32, Color3b)>, c: Color3b) -> Seq<(u32, u32)>
    decreases pixel.len(),
{
    if pixel.len() == 0 {
        Seq::empty()
    } else {
        let rest = points_of(pixel.drop_last(), c);
        if pixel.last().2 == c {
            rest.push((pixel.last().0, pixel.last().1))
        } else {
            rest
        }
    }
}

/// `pixel` lists the tile of `rows` whose corner is `(ox, oy)`, row by row.
spec fn lists_tile(
    pixel: Seq<(u32, u32, Color3b)>,
    rows: Seq<Seq<Color3b>>,
    ox: int,
    oy: int,
) -> bool {
    &&& pixel.len() == 64
    &&& forall|k: int|
        0 <= k < 64 ==> {
            &&& (#[trigger] pixel[k]).0 == ox + k % 8
            &&& pixel[k].1 == oy + k / 8
            &&& pixel[k].2 == rows[oy + k / 8][ox + k % 8]
        }
}

/// `block` holds one group for each colour of `pixel`, in the order of
/// first occurrence, each with the pixels of its colour.
spec fn groups_pixels(block: Seq<ColorGroup>, pixel: Seq<(u32, u32, Color3b)>) -> bool {
    &&& block.len() == distinct_colors(colors_of(pixel)).len()
    &&& forall|i: int|
        0 <= i < block.len() ==> {
            &&& (#[trigger] block[i]).color == distinct_colors(colors_of(pixel))[i]
            &&& block[i].points@ == points_of(pixel, block[i].color)
            &&& block[i].count == block[i].points@.len()
        }
}

/// `rows` after the reduction of the tile in column `tx` and row `ty` of
/// the grid of tiles.
spec fn with_tile_reduced(rows: Seq<Seq<Color3b>>, tx: int, ty: int) -> Seq<Seq<Color3b>> {
    Seq::new(
        rows.len(),
        |y: int|
            Seq::new(
                rows[y].len(),
                |x: int|
                    if 8 * tx <= x < 8 * tx + 8 && 8 * ty <= y < 8 * ty + 8 {
                        reduced_color(tile_at(rows, tx, ty), rows[y][x])
                    } else {
                        rows[y][x]
                    },
            ),
    )
}

/// The tile of the pixel `(x, y)` comes before the tile `(tx, ty)` when
/// the tiles are taken row by row.
spec fn done_before(x: int, y: int, tx: int, ty: int) -> bool {
    y / 8 < ty || (y / 8 == ty && x / 8 < tx)
}

/// `rows` after the reduction of the whole tiles that come before the
/// tile `(tx, ty)`.
spec fn reduced_until(rows: Seq<Seq<Color3b>>, width: nat, tx: int, ty: int) -> Seq<
    Seq<Color3b>,
> {
    Seq::new(
        rows.len(),
        |y: int|
            Seq::new(
                width,
                |x: int|
                    if in_tiles(rows, width, x, y) && done_before(x, y, tx, ty) {
                        reduced_color(tile_at(rows, x / 8, y / 8), rows[y][x])
                    } else {
                        rows[y][x]
                    },
            ),
    )
}

proof fn lemma_colors_of_drop_last(pixel: Seq<(u32, u32, Color3b)>)
    requires
        pixel.len() > 0,
    ensures
        colors_of(pixel).drop_last() == colors_of(pixel.drop_last()),
        colors_of(pixel).last() == pixel.last().2,
{
    assert(colors_of(pixel).drop_last() =~= colors_of(pixel.drop_last()));
}

/// The points of a colour are as many as its pixels, and they are the
/// coordinates of the pixels that hold it.
proof fn lemma_points_of(pixel: Seq<(u32, u32, Color3b)>, c: Color3b)
    ensures
        points_of(pixel, c).len() == count_of(colors_of(pixel), c),
        points_of(pixel, c).len() <= pixel.len(),
        forall|p: (u32, u32)| points_of(pixel, c).contains(p) <==> pixel.contains((p.0, p.1, c)),
    decreases pixel.len(),
{
    if pixel.len() > 0 {
        let rest = pixel.drop_last();
        let last = pixel.last();
        let pr = points_of(rest, c);
        let pp = points_of(pixel, c);
        lemma_points_of(rest, c);
        lemma_colors_of_drop_last(pixel);
        assert forall|p: (u32, u32)| pp.contains(p) <==> pixel.contains((p.0, p.1, c)) by {
            if pp.contains(p) {
                let j = choose|j: int| 0 <= j < pp.len() && pp[j] == p;
                if j < pr.len() {
                    assert(pr[j] == p);
                    assert(pr.contains(p));
                    assert(rest.contains((p.0, p.1, c)));
                    let k = choose|k: int| 0 <= k < rest.len() && rest[k] == (p.0, p.1, c);
                    assert(pixel[k] == (p.0, p.1, c));
                } else {
                    assert(pixel[pixel.len() - 1] == (p.0, p.1, c));
                }
            }
            if pixel.contains((p.0, p.1, c)) {
                let k = choose|k: int| 0 <= k < pixel.len() && pixel[k] == (p.0, p.1, c);
                if k < rest.len() {
                    assert(rest[k] == (p.0, p.1, c));
                    assert(rest.contains((p.0, p.1, c)));
                    assert(pr.contains(p));
                    let j = choose|j: int| 0 <= j < pr.len() && pr[j] == p;
                    assert(pp[j] == p);
                } else {
                    assert(pp[pr.len() as int] == p);
                }
            }
        }
    }
}

proof fn lemma_tail_count_bound(r: Seq<ColorGroup>, from: int)
    requires
        0 <= from,
        forall|i: int| 0 <= i < r.len() ==> (#[trigger] r[i]).count <= 64,
    ensures
        tail_count(r, from) <= 64 * r.len(),
        from <= r.len() ==> tail_count(r, from) <= 64 * (r.len() - from),
    decreases r.len() - from,
{
    if from < r.len() {
        lemma_tail_count_bound(r, from + 1);
    }
}

/// What the ranked block of a tile holds: its groups are those of the
/// block, and their colours are the ranking of the tile.
proof fn lemma_ranked_block(
    rows: Seq<Seq<Color3b>>,
    pixel: Seq<(u32, u32, Color3b)>,
    block: Seq<ColorGroup>,
    tx: int,
    ty: int,
)
    requires
        lists_tile(pixel, rows, 8 * tx, 8 * ty),
        groups_pixels(block, pixel),
    ensures
        colors_of(pixel) == tile_at(rows, tx, ty),
        ranked(block).len() == ranking(tile_at(rows, tx, ty)).len(),
        ranked(block).len() == block.len(),
        forall|i: int|
            0 <= i < ranked(block).len() ==> {
                &&& (#[trigger] ranked(block)[i]).color == ranking(tile_at(rows, tx, ty))[i]
                &&& ranked(block)[i].points@ == points_of(pixel, ranked(block)[i].color)
                &&& ranked(block)[i].count <= 64
            },
{
    let t = colors_of(pixel);
    let d = distinct_colors(t);
    let r = ranked(block);
    let key = by_rank::<ColorGroup>();
    let color_of = |g: ColorGroup| g.color;
    assert(t =~= tile_at(rows, tx, ty));
    assert forall|i: int| 0 <= i < block.len() implies key(#[trigger] block[i]) == by_population(
        t,
    )(color_of(block[i])) by {
        lemma_points_of(pixel, block[i].color);
    }
    lemma_sort_map(block, key, color_of, by_population(t));
    assert(block.map_values(color_of) =~= d);
    lemma_sort_len(block, key);
    lemma_sort_len(d, by_population(t));
    assert forall|i: int| 0 <= i < r.len() implies {
        &&& (#[trigger] r[i]).color == ranking(t)[i]
        &&& r[i].points@ == points_of(pixel, r[i].color)
        &&& r[i].count <= 64
    } by {
        assert(r.map_values(color_of)[i] == r[i].color);
        lemma_sort_contains(block, key, r[i]);
        assert(r.contains(r[i]));
        let j = choose|j: int| 0 <= j < block.len() && block[j] == r[i];
        assert(block[j].points@ == points_of(pixel, block[j].color));
        lemma_points_of(pixel, block[j].color);
    }
}

/// The ranked block of a tile can be merged: its points lie in the tile.
proof fn lemma_block_absorbable(
    rows: Seq<Seq<Color3b>>,
    width: nat,
    pixel: Seq<(u32, u32, Color3b)>,
    block: Seq<ColorGroup>,
    tx: int,
    ty: int,
)
    requires
        rectangular(rows, width),
        0 <= tx < width / 8,
        0 <= ty < rows.len() / 8,
        lists_tile(pixel, rows, 8 * tx, 8 * ty),
        groups_pixels(block, pixel),
        block.len() > 4,
    ensures
        absorbable(ranked(block), rows, width),
{
    let r = ranked(block);
    lemma_ranked_block(rows, pixel, block, tx, ty);
    lemma_tail_count_bound(r, 4);
    assert(r.len() <= 64) by {
        crate::tile::lemma_distinct_colors(colors_of(pixel));
    }
    assert forall|i: int, j: int| 4 <= i < r.len() && 0 <= j < r[i].points@.len() implies (
    #[trigger] r[i].points@[j]).0 < width && r[i].points@[j].1 < rows.len() by {
        let p = r[i].points@[j];
        lemma_points_of(pixel, r[i].color);
        assert(points_of(pixel, r[i].color).contains(p));
        assert(pixel.contains((p.0, p.1, r[i].color)));
        let k = choose|k: int| 0 <= k < pixel.len() && pixel[k] == (p.0, p.1, r[i].color);
        assert(pixel[k].0 == 8 * tx + k % 8);
    }
}

/// Repainting by the ranked block of a tile is the reduction of the tile.
proof fn lemma_repaint_reduces(
    rows: Seq<Seq<Color3b>>,
    width: nat,
    pixel: Seq<(u32, u32, Color3b)>,
    block: Seq<ColorGroup>,
    tx: int,
    ty: int,
)
    requires
        rectangular(rows, width),
        0 <= tx < width / 8,
        0 <= ty < rows.len() / 8,
        rows.len() <= u32::MAX,
        width <= u32::MAX,
        lists_tile(pixel, rows, 8 * tx, 8 * ty),
        groups_pixels(block, pixel),
        block.len() > 4,
    ensures
        repainted(rows, ranked(block)) == with_tile_reduced(rows, tx, ty),
{
    let r = ranked(block);
    let t = tile_at(rows, tx, ty);
    let a = repainted(rows, r);
    let b = with_tile_reduced(rows, tx, ty);
    lemma_ranked_block(rows, pixel, block, tx, ty);
    lemma_ranking(t);
    assert forall|y: int| 0 <= y < rows.len() implies a[y] == b[y] by {
        assert forall|x: int| 0 <= x < rows[y].len() implies a[y][x] == b[y][x] by {
            let inside = 8 * tx <= x < 8 * tx + 8 && 8 * ty <= y < 8 * ty + 8;
            if absorbed(r, x, y) {
                let (i, j) = choose|i: int, j: int|
                    #[trigger] hit(r, i, j, x, y) && 4 <= i < r.len() && 0 <= j
                        < r[i].points@.len();
                let p = r[i].points@[j];
                lemma_points_of(pixel, r[i].color);
                assert(points_of(pixel, r[i].color).contains(p));
                assert(pixel.contains((p.0, p.1, r[i].color)));
                let k = choose|k: int| 0 <= k < pixel.len() && pixel[k] == (p.0, p.1, r[i].color);
                assert(pixel[k].0 == 8 * tx + k % 8);
                assert(inside);
                assert(rows[y][x] == ranking(t)[i]);
                lemma_survivors(t, i);
                assert(!survives(t, rows[y][x]));
            }
            if inside && !survives(t, rows[y][x]) {
                let c = rows[y][x];
                let k = 8 * (y - 8 * ty) + (x - 8 * tx);
                assert(k % 8 == x - 8 * tx && k / 8 == y - 8 * ty);
                assert(t[k] == c);
                assert(t.contains(c));
                assert(ranking(t).contains(c));
                let i = choose|i: int| 0 <= i < ranking(t).len() && ranking(t)[i] == c;
                lemma_survivors(t, i);
                assert(r[i].color == c);
                lemma_points_of(pixel, c);
                assert(pixel[k] == (x as u32, y as u32, c));
                assert(pixel.contains((x as u32, y as u32, c)));
                let p = (x as u32, y as u32);
                assert(points_of(pixel, c).contains(p));
                let j = choose|j: int|
                    0 <= j < points_of(pixel, c).len() && points_of(pixel, c)[j] == p;
                assert(hit(r, i, j, x, y));
                assert(absorbed(r, x, y));
            }
            if inside && survives(t, rows[y][x]) {
                assert(!absorbed(r, x, y));
            }
            assert(ranking(t).len() > 0);
            assert(r[0].color == ranking(t)[0]);
        }
        assert(a[y] =~= b[y]);
    }
    assert(a =~= b);
}

/// The reduction leaves a tile of at most four colours as it is.
proof fn lemma_tile_untouched(
    rows: Seq<Seq<Color3b>>,
    width: nat,
    tx: int,
    ty: int,
)
    requires
        rectangular(rows, width),
        0 <= tx < width / 8,
        0 <= ty < rows.len() / 8,
        distinct_colors(tile_at(rows, tx, ty)).len() <= 4,
    ensures
        with_tile_reduced(rows, tx, ty) == rows,
{
    let t = tile_at(rows, tx, ty);
    let b = with_tile_reduced(rows, tx, ty);
    lemma_few_colors_fixed(t);
    assert forall|y: int| 0 <= y < rows.len() implies b[y] == rows[y] by {
        assert forall|x: int| 0 <= x < rows[y].len() implies b[y][x] == rows[y][x] by {
            if 8 * tx <= x < 8 * tx + 8 && 8 * ty <= y < 8 * ty + 8 {
                let k = 8 * (y - 8 * ty) + (x - 8 * tx);
                assert(k % 8 == x - 8 * tx && k / 8 == y - 8 * ty);
                assert(t[k] == rows[y][x]);
                assert(t.contains(rows[y][x]));
            }
        }
        assert(b[y] =~= rows[y]);
    }
    assert(b =~= rows);
}

proof fn lemma_reduced_until_start(rows: Seq<Seq<Color3b>>, width: nat)
    requires
        rectangular(rows, width),
    ensures
        reduced_until(rows, width, 0, 0) == rows,
{
    let a = reduced_until(rows, width, 0, 0);
    assert forall|y: int| 0 <= y < rows.len() implies a[y] == rows[y] by {
        assert(a[y] =~= rows[y]);
    }
    assert(a =~= rows);
}

proof fn lemma_reduced_until_step(rows: Seq<Seq<Color3b>>, width: nat, tx: int, ty: int)
    requires
        rectangular(rows, width),
        0 <= tx < width / 8,
        0 <= ty < rows.len() / 8,
    ensures
        rectangular(reduced_until(rows, width, tx, ty), width),
        tile_at(reduced_until(rows, width, tx, ty), tx, ty) == tile_at(rows, tx, ty),
        with_tile_reduced(reduced_until(rows, width, tx, ty), tx, ty) == reduced_until(
            rows,
            width,
            tx + 1,
            ty,
        ),
{
    let cur = reduced_until(rows, width, tx, ty);
    let t = tile_at(rows, tx, ty);
    assert forall|k: int| 0 <= k < 64 implies tile_at(cur, tx, ty)[k] == t[k] by {
        let x = 8 * tx + k % 8;
        let y = 8 * ty + k / 8;
        assert(x / 8 == tx && y / 8 == ty);
        assert(!done_before(x, y, tx, ty));
        assert(cur[y][x] == rows[y][x]);
    }
    assert(tile_at(cur, tx, ty) =~= t);
    let a = with_tile_reduced(cur, tx, ty);
    let b = reduced_until(rows, width, tx + 1, ty);
    assert forall|y: int| 0 <= y < rows.len() implies a[y] == b[y] by {
        assert forall|x: int| 0 <= x < width implies a[y][x] == b[y][x] by {
            if 8 * tx <= x < 8 * tx + 8 && 8 * ty <= y < 8 * ty + 8 {
                assert(x / 8 == tx && y / 8 == ty);
                assert(in_tiles(rows, width, x, y));
                assert(done_before(x, y, tx + 1, ty));
                assert(!done_before(x, y, tx, ty));
            } else {
                assert(done_before(x, y, tx + 1, ty) == done_before(x, y, tx, ty) || !in_tiles(
                    rows,
                    width,
                    x,
                    y,
                ));
            }
        }
        assert(a[y] =~= b[y]);
    }
    assert(a =~= b);
}

proof fn lemma_reduced_until_row(rows: Seq<Seq<Color3b>>, width: nat, ty: int)
    requires
        rectangular(rows, width),
        0 <= ty,
    ensures
        reduced_until(rows, width, (width / 8) as int, ty) == reduced_until(rows, width, 0, ty + 1),
{
    let a = reduced_until(rows, width, (width / 8) as int, ty);
    let b = reduced_until(rows, width, 0, ty + 1);
    assert forall|y: int| 0 <= y < rows.len() implies a[y] == b[y] by {
        assert forall|x: int| 0 <= x < width implies a[y][x] == b[y][x] by {
            if in_tiles(rows, width, x, y) {
                assert(x / 8 < width / 8);
                assert(done_before(x, y, (width / 8) as int, ty) == done_before(x, y, 0, ty + 1));
            }
        }
        assert(a[y] =~= b[y]);
    }
    assert(a =~= b);
}

proof fn lemma_reduced_until_end(rows: Seq<Seq<Color3b>>, width: nat)
    requires
        rectangular(rows, width),
    ensures
        reduced_until(rows, width, 0, (rows.len() / 8) as int) == reduced(rows, width),
{
    let a = reduced_until(rows, width, 0, (rows.len() / 8) as int);
    let b = reduced(rows, width);
    assert forall|y: int| 0 <= y < rows.len() implies a[y] == b[y] by {
        assert forall|x: int| 0 <= x < width implies a[y][x] == b[y][x] by {
            if in_tiles(rows, width, x, y) {
                assert(y / 8 < rows.len() / 8);
                assert(done_before(x, y, 0, (rows.len() / 8) as int));
            }
        }
        assert(a[y] =~= b[y]);
    }
    assert(a =~= b);
}

/// The pixels of the tile whose corner is `(offset_x, offset_y)`, row by
/// row, each with its coordinates.
fn tile_pixels(image: &Image, offset_x: u32, offset_y: u32) -> (pixel: Vec<(u32, u32, Color3b)>)
    requires
        offset_x + 8 <= image_width(*image),
        offset_y + 8 <= image_rows(*image).len(),
        image_width(*image) <= u32::MAX,
        image_rows(*image).len() <= u32::MAX,
    ensures
        lists_tile(pixel@, image_rows(*image), offset_x as int, offset_y as int),
{
    let mut pixel: Vec<(u32, u32, Color3b)> = Vec::new();
    let mut y1: u32 = offset_y;
    while y1 < offset_y + 8
        invariant
            offset_x + 8 <= image_width(*image),
            offset_y + 8 <= image_rows(*image).len(),
            image_width(*image) <= u32::MAX,
            image_rows(*image).len() <= u32::MAX,
            offset_y <= y1 <= offset_y + 8,
            pixel.len() == (y1 - offset_y) * 8,
            forall|k: int|
                0 <= k < pixel.len() ==> {
                    &&& (#[trigger] pixel[k]).0 == offset_x + k % 8
                    &&& pixel[k].1 == offset_y + k / 8
                    &&& pixel[k].2 == image_rows(*image)[offset_y + k / 8][offset_x + k % 8]
                },
        decreases offset_y + 8 - y1,
    {
        let mut x1: u32 = offset_x;
        while x1 < offset_x + 8
            invariant
                offset_x + 8 <= image_width(*image),
                offset_y + 8 <= image_rows(*image).len(),
                image_width(*image) <= u32::MAX,
                image_rows(*image).len() <= u32::MAX,
                offset_y <= y1 < offset_y + 8,
                offset_x <= x1 <= offset_x + 8,
                pixel.len() == (y1 - offset_y) * 8 + (x1 - offset_x),
                forall|k: int|
                    0 <= k < pixel.len() ==> {
                        &&& (#[trigger] pixel[k]).0 == offset_x + k % 8
                        &&& pixel[k].1 == offset_y + k / 8
                        &&& pixel[k].2 == image_rows(*image)[offset_y + k / 8][offset_x + k % 8]
                    },
            decreases offset_x + 8 - x1,
        {
            let rgb = image.get_pixel(x1, y1);
            let ghost k = pixel.len() as int;
            assert(k % 8 == x1 - offset_x && k / 8 == y1 - offset_y);
            pixel.push((x1, y1, rgb));
            x1 += 1;
        }
        y1 += 1;
    }
    pixel
}

/// The colours of `pixel`, each once, in the order of first occurrence.
fn color_set(pixel: &Vec<(u32, u32, Color3b)>) -> (colors: Vec<Color3b>)
    ensures
        colors@ == distinct_colors(colors_of(pixel@)),
{
    let ghost t = colors_of(pixel@);
    let mut colors: Vec<Color3b> = Vec::new();
    let mut k: usize = 0;
    assert(t.take(0) =~= Seq::<Color3b>::empty());
    while k < pixel.len()
        invariant
            k <= pixel.len(),
            t == colors_of(pixel@),
            colors@ == distinct_colors(t.take(k as int)),
        decreases pixel.len() - k,
    {
        let c = pixel[k].2;
        let mut found = false;
        let mut i: usize = 0;
        while i < colors.len()
            invariant
                i <= colors.len(),
                found <==> exists|j: int| 0 <= j < i && colors@[j] == c,
            decreases colors.len() - i,
        {
            if colors[i] == c {
                found = true;
            }
            i += 1;
        }
        assert(found <==> colors@.contains(c));
        proof {
            assert(t.take(k + 1).drop_last() =~= t.take(k as int));
            assert(t.take(k + 1).last() == c);
        }
        if !found {
            colors.push(c);
        }
        k += 1;
    }
    assert(t.take(pixel.len() as int) =~= t);
    colors
}

/// The coordinates of the pixels of `pixel` that hold `c`, in list order.
fn matching_points(pixel: &Vec<(u32, u32, Color3b)>, c: Color3b) -> (points: Vec<(u32, u32)>)
    ensures
        points@ == points_of(pixel@, c),
{
    let mut points: Vec<(u32, u32)> = Vec::new();
    let mut k: usize = 0;
    assert(pixel@.take(0) =~= Seq::<(u32, u32, Color3b)>::empty());
    while k < pixel.len()
        invariant
            k <= pixel.len(),
            points@ == points_of(pixel@.take(k as int), c),
        decreases pixel.len() - k,
    {
        proof {
            assert(pixel@.take(k + 1).drop_last() =~= pixel@.take(k as int));
            assert(pixel@.take(k + 1).last() == pixel@[k as int]);
        }
        if pixel[k].2 == c {
            points.push((pixel[k].0, pixel[k].1));
        }
        k += 1;
    }
    assert(pixel@.take(pixel.len() as int) =~= pixel@);
    points
}

/// One group for each colour of `colors`, with the pixels of `pixel` that
/// hold it.
fn color_groups(colors: &Vec<Color3b>, pixel: &Vec<(u32, u32, Color3b)>) -> (block: Vec<
    ColorGroup,
>)
    requires
        colors@ == distinct_colors(colors_of(pixel@)),
    ensures
        groups_pixels(block@, pixel@),
{
    let mut block: Vec<ColorGroup> = Vec::new();
    let mut i: usize = 0;
    while i < colors.len()
        invariant
            i <= colors.len(),
            colors@ == distinct_colors(colors_of(pixel@)),
            block.len() == i,
            forall|j: int|
                0 <= j < i ==> {
                    &&& (#[trigger] block@[j]).color == colors@[j]
                    &&& block@[j].points@ == points_of(pixel@, block@[j].color)
                    &&& block@[j].count == block@[j].points@.len()
                },
        decreases colors.len() - i,
    {
        let c = colors[i];
        let count = matching_points(pixel, c);
        block.push(ColorGroup { count: count.len(), color: c, points: count });
        i += 1;
    }
    block
}

/// Reduces the tile in column `x` and row `y` of the grid of tiles.
fn reduce_tile(image: &mut Image, x: u32, y: u32)
    requires
        rectangular(image_rows(*old(image)), image_width(*old(image))),
        image_width(*old(image)) <= u32::MAX,
        image_rows(*old(image)).len() <= u32::MAX,
        x < image_width(*old(image)) / 8,
        y < image_rows(*old(image)).len() / 8,
    ensures
        image_width(*final(image)) == image_width(*old(image)),
        image_rows(*final(image)) == with_tile_reduced(
            image_rows(*old(image)),
            x as int,
            y as int,
        ),
{
    let ghost rows = image_rows(*image);
    let ghost width = image_width(*image);
    let offset_x = x * 8;
    let offset_y = y * 8;
    let pixel = tile_pixels(image, offset_x, offset_y);
    let color_set = color_set(&pixel);
    proof {
        assert(colors_of(pixel@) =~= tile_at(rows, x as int, y as int));
    }
    if color_set.len() > 4 {
        let mut block = color_groups(&color_set, &pixel);
        proof {
            lemma_block_absorbable(rows, width, pixel@, block@, x as int, y as int);
            lemma_repaint_reduces(rows, width, pixel@, block@, x as int, y as int);
        }
        fix_pixel_block(&mut block, image);
    } else {
        proof {
            lemma_tile_untouched(rows, width, x as int, y as int);
        }
    }
}

/// Brings every whole tile of the image within the budget of four colours.
///
/// The image is read as a grid of tiles of 8 by 8 pixels, from its top
/// left corner; what lies right of the last whole tile of a row or below
/// the last row of whole tiles stays as it is. In each tile the four
/// colours with the most pixels stay, and every other pixel takes the
/// colour with the most pixels. A tile of at most four colours is left
/// alone.
pub fn c64_reduce_color_per_block(image: &mut Image)
    ensures
        image_width(*final(image)) == image_width(*old(image)),
        image_rows(*final(image)) == reduced(image_rows(*old(image)), image_width(*old(image))),
        within_budget(image_rows(*final(image)), image_width(*final(image))),
{
    let width = image.width();
    let height = image.height();
    let ghost orig = image_rows(*image);
    let ghost w = width as nat;
    proof {
        lemma_reduced_until_start(orig, w);
    }
    let mut y: u32 = 0;
    while y < height / 8
        invariant
            rectangular(orig, w),
            w == width,
            height == orig.len(),
            y <= height / 8,
            image_width(*image) == w,
            image_rows(*image) == reduced_until(orig, w, 0, y as int),
        decreases height / 8 - y,
    {
        let mut x: u32 = 0;
        while x < width / 8
            invariant
                rectangular(orig, w),
                w == width,
                height == orig.len(),
                y < height / 8,
                x <= width / 8,
                image_width(*image) == w,
                image_rows(*image) == reduced_until(orig, w, x as int, y as int),
            decreases width / 8 - x,
        {
            proof {
                lemma_reduced_until_step(orig, w, x as int, y as int);
            }
            reduce_tile(image, x, y);
            x += 1;
        }
        proof {
            lemma_reduced_until_row(orig, w, y as int);
        }
        y += 1;
    }
    proof {
        lemma_reduced_until_end(orig, w);
        reduction_meets_budget(orig, w);
    }
}

} // verus!
