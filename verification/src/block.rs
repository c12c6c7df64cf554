//! Merging the colour groups of a tile down to four.
//!
//! A block lists, for each colour of a tile, how many pixels hold it and
//! where they are. While a block has more than four groups, the group with
//! the fewest pixels is dissolved: its pixels are repainted in the colour
//! of the group with the most pixels, and its count goes to that group.

use vstd::prelude::*;
use crate::color::Color3b;
use crate::order::{
    ascending, by_rank, lemma_sort_ascending, lemma_sort_len, lemma_sort_of_ascending,
    sort_stably, stable_sort, Ranked,
};
use crate::raster::{image_rows, image_width, rectangular, with_pixel, Image};

verus! {

/// The pixels of one colour: how many there are, the colour, and the
/// coordinates `(x, y)` of each.
#[derive(Debug)]
pub struct ColorGroup {
    pub count: usize,
    pub color: Color3b,
    pub points: Vec<(u32, u32)>,
}

impl Ranked for ColorGroup {
    /// Groups with more pixels come first.
    open spec fn rank(&self) -> int {
        -(self.count as int)
    }

    fn ranks_no_later_than(&self, other: &Self) -> (b: bool) {
        self.count >= other.count
    }
}

/// The groups of `block` by falling count, groups of equal count in the
/// order in which they stand in `block`.
pub open spec fn ranked(block: Seq<ColorGroup>) -> Seq<ColorGroup> {
    stable_sort(block, by_rank::<ColorGroup>())
}

/// The sum of the counts of the groups of `r` from position `from` on.
pub open spec fn tail_count(r: Seq<ColorGroup>, from: int) -> int
    decreases r.len() - from,
{
    if from < 0 || from >= r.len() {
        0
    } else {
        r[from].count + tail_count(r, from + 1)
    }
}

/// Point `j` of group `i` of `r` is the pixel `(x, y)`.
pub open spec fn hit(r: Seq<ColorGroup>, i: int, j: int, x: int, y: int) -> bool {
    r[i].points@[j].0 == x && r[i].points@[j].1 == y
}

/// The pixel `(x, y)` is a point of a group of `r` behind the first four.
pub open spec fn absorbed(r: Seq<ColorGroup>, x: int, y: int) -> bool {
    exists|i: int, j: int|
        #[trigger] hit(r, i, j, x, y) && 4 <= i < r.len() && 0 <= j < r[i].points@.len()
}

/// `rows` with every point of the groups of `r` behind the first four in
/// the colour of the first group.
pub open spec fn repainted(rows: Seq<Seq<Color3b>>, r: Seq<ColorGroup>) -> Seq<Seq<Color3b>> {
    Seq::new(
        rows.len(),
        |y: int|
            Seq::new(
                rows[y].len(),
                |x: int|
                    if absorbed(r, x, y) {
                        r[0].color
                    } else {
                        rows[y][x]
                    },
            ),
    )
}

/// The first `m` groups of `r`, the first of them with the counts of all
/// groups from position `m` on added to its own.
pub open spec fn merged(r: Seq<ColorGroup>, m: int) -> Seq<ColorGroup> {
    seq![
        ColorGroup {
            count: (r[0].count + tail_count(r, m)) as usize,
            color: r[0].color,
            points: r[0].points,
        },
    ] + r.subrange(1, m)
}

/// The ranked block `r` can be merged down to four groups in an image of
/// the given rows: the merged count fits, and the points to repaint lie
/// inside the image.
pub open spec fn absorbable(r: Seq<ColorGroup>, rows: Seq<Seq<Color3b>>, width: nat) -> bool {
    &&& r[0].count + tail_count(r, 4) <= usize::MAX
    &&& forall|i: int, j: int|
        4 <= i < r.len() && 0 <= j < r[i].points@.len() ==> (#[trigger] r[i].points@[j]).0 < width
            && r[i].points@[j].1 < rows.len()
}

/// The pixel `(x, y)` is a point of a group of `r` from position `m` on,
/// or one of the first `cut` points of the group before.
spec fn taken(r: Seq<ColorGroup>, m: int, cut: int, x: int, y: int) -> bool {
    exists|i: int, j: int|
        #[trigger] hit(r, i, j, x, y) && 0 <= i < r.len() && 0 <= j < r[i].points@.len() && (m <= i
            || (i == m - 1 && j < cut))
}

/// `rows` with the pixels that `taken` describes in the colour of the
/// first group.
spec fn painted(rows: Seq<Seq<Color3b>>, r: Seq<ColorGroup>, m: int, cut: int) -> Seq<
    Seq<Color3b>,
> {
    Seq::new(
        rows.len(),
        |y: int|
            Seq::new(
                rows[y].len(),
                |x: int|
                    if taken(r, m, cut, x, y) {
                        r[0].color
                    } else {
                        rows[y][x]
                    },
            ),
    )
}

proof fn lemma_tail_count(r: Seq<ColorGroup>, a: int, b: int)
    requires
        0 <= a <= b,
    ensures
        0 <= tail_count(r, b) <= tail_count(r, a),
    decreases r.len() - a,
{
    if a >= r.len() {
        assert(tail_count(r, b) == 0);
    } else if a < b {
        lemma_tail_count(r, a + 1, b);
    } else {
        lemma_tail_count(r, a + 1, a + 1);
    }
}

proof fn lemma_merged_whole(r: Seq<ColorGroup>)
    requires
        r.len() > 0,
    ensures
        merged(r, r.len() as int) == r,
{
    assert(tail_count(r, r.len() as int) == 0);
    assert(merged(r, r.len() as int) =~= r);
}

proof fn lemma_merged_ascending(r: Seq<ColorGroup>, m: int)
    requires
        ascending(r, by_rank::<ColorGroup>()),
        1 <= m <= r.len(),
        r[0].count + tail_count(r, m) <= usize::MAX,
    ensures
        ascending(merged(r, m), by_rank::<ColorGroup>()),
{
    let key = by_rank::<ColorGroup>();
    let s = merged(r, m);
    lemma_tail_count(r, m, m);
    assert forall|i: int, j: int| 0 <= i <= j < s.len() implies key(s[i]) <= key(s[j]) by {
        if i > 0 {
            assert(s[i] == r[i] && s[j] == r[j]);
        } else if j > 0 {
            assert(s[j] == r[j]);
            assert(key(r[0]) <= key(r[j]));
        }
    }
}

proof fn lemma_painted_none(rows: Seq<Seq<Color3b>>, r: Seq<ColorGroup>)
    ensures
        painted(rows, r, r.len() as int, 0) == rows,
{
    let p = painted(rows, r, r.len() as int, 0);
    assert forall|y: int| 0 <= y < rows.len() implies p[y] == rows[y] by {
        assert(p[y] =~= rows[y]);
    }
    assert(p =~= rows);
}

proof fn lemma_painted_next(rows: Seq<Seq<Color3b>>, r: Seq<ColorGroup>, m: int)
    requires
        1 <= m <= r.len(),
    ensures
        painted(rows, r, m, r[m - 1].points@.len() as int) == painted(rows, r, m - 1, 0),
{
    let cut = r[m - 1].points@.len() as int;
    let p = painted(rows, r, m, cut);
    let q = painted(rows, r, m - 1, 0);
    assert forall|y: int| 0 <= y < rows.len() implies p[y] == q[y] by {
        assert forall|x: int| 0 <= x < rows[y].len() implies p[y][x] == q[y][x] by {
            if taken(r, m, cut, x, y) {
                let (i, j) = choose|i: int, j: int|
                    #[trigger] hit(r, i, j, x, y) && 0 <= i < r.len() && 0 <= j
                        < r[i].points@.len() && (m <= i || (i == m - 1 && j < cut));
                assert(hit(r, i, j, x, y));
                assert(taken(r, m - 1, 0, x, y));
            }
            if taken(r, m - 1, 0, x, y) {
                let (i, j) = choose|i: int, j: int|
                    #[trigger] hit(r, i, j, x, y) && 0 <= i < r.len() && 0 <= j
                        < r[i].points@.len() && (m - 1 <= i || (i == m - 2 && j < 0));
                assert(hit(r, i, j, x, y));
                assert(taken(r, m, cut, x, y));
            }
        }
        assert(p[y] =~= q[y]);
    }
    assert(p =~= q);
}

proof fn lemma_painted_final(rows: Seq<Seq<Color3b>>, r: Seq<ColorGroup>)
    ensures
        painted(rows, r, 4, 0) == repainted(rows, r),
{
    let p = painted(rows, r, 4, 0);
    let q = repainted(rows, r);
    assert forall|y: int| 0 <= y < rows.len() implies p[y] == q[y] by {
        assert forall|x: int| 0 <= x < rows[y].len() implies p[y][x] == q[y][x] by {
            if taken(r, 4, 0, x, y) {
                let (i, j) = choose|i: int, j: int|
                    #[trigger] hit(r, i, j, x, y) && 0 <= i < r.len() && 0 <= j
                        < r[i].points@.len() && (4 <= i || (i == 3 && j < 0));
                assert(hit(r, i, j, x, y));
                assert(absorbed(r, x, y));
            }
            if absorbed(r, x, y) {
                let (i, j) = choose|i: int, j: int|
                    #[trigger] hit(r, i, j, x, y) && 4 <= i < r.len() && 0 <= j
                        < r[i].points@.len();
                assert(hit(r, i, j, x, y));
                assert(taken(r, 4, 0, x, y));
            }
        }
        assert(p[y] =~= q[y]);
    }
    assert(p =~= q);
}

proof fn lemma_painted_step(
    rows: Seq<Seq<Color3b>>,
    width: nat,
    r: Seq<ColorGroup>,
    m: int,
    cut: int,
)
    requires
        rectangular(rows, width),
        1 <= m <= r.len(),
        0 <= cut < r[m - 1].points@.len(),
        r[m - 1].points@[cut].0 < width,
        r[m - 1].points@[cut].1 < rows.len(),
    ensures
        with_pixel(
            painted(rows, r, m, cut),
            r[m - 1].points@[cut].0 as int,
            r[m - 1].points@[cut].1 as int,
            r[0].color,
        ) == painted(rows, r, m, cut + 1),
{
    let px = r[m - 1].points@[cut].0 as int;
    let py = r[m - 1].points@[cut].1 as int;
    let before = painted(rows, r, m, cut);
    let p = with_pixel(before, px, py, r[0].color);
    let q = painted(rows, r, m, cut + 1);
    assert(hit(r, m - 1, cut, px, py));
    assert forall|y: int| 0 <= y < rows.len() implies p[y] == q[y] by {
        assert forall|x: int| 0 <= x < rows[y].len() implies p[y][x] == q[y][x] by {
            if taken(r, m, cut, x, y) {
                let (i, j) = choose|i: int, j: int|
                    #[trigger] hit(r, i, j, x, y) && 0 <= i < r.len() && 0 <= j
                        < r[i].points@.len() && (m <= i || (i == m - 1 && j < cut));
                assert(hit(r, i, j, x, y));
                assert(taken(r, m, cut + 1, x, y));
            }
            if x == px && y == py {
                assert(taken(r, m, cut + 1, x, y));
            }
            if taken(r, m, cut + 1, x, y) && !(x == px && y == py) {
                let (i, j) = choose|i: int, j: int|
                    #[trigger] hit(r, i, j, x, y) && 0 <= i < r.len() && 0 <= j
                        < r[i].points@.len() && (m <= i || (i == m - 1 && j < cut + 1));
                assert(hit(r, i, j, x, y));
                assert(taken(r, m, cut, x, y));
            }
        }
        assert(p[y] =~= q[y]);
    }
    assert(p =~= q);
}

/// Merges the groups of `block` down to four and repaints `rgb` to match.
///
/// A block of at most four groups is left as it is, and so is the image.
/// Otherwise the block ends as the four groups with the most pixels, in
/// falling order of count, where ties go to the group that stood first;
/// every point of the other groups has the colour of the first group, whose
/// count has grown by theirs.
pub fn fix_pixel_block(block: &mut Vec<ColorGroup>, rgb: &mut Image)
    requires
        old(block).len() > 4 ==> absorbable(
            ranked(old(block)@),
            image_rows(*old(rgb)),
            image_width(*old(rgb)),
        ),
    ensures
        image_width(*final(rgb)) == image_width(*old(rgb)),
        old(block).len() <= 4 ==> final(block)@ == old(block)@ && image_rows(*final(rgb))
            == image_rows(*old(rgb)),
        old(block).len() > 4 ==> final(block)@ == merged(ranked(old(block)@), 4) && image_rows(
            *final(rgb),
        ) == repainted(image_rows(*old(rgb)), ranked(old(block)@)),
{
    let ghost start = block@;
    let ghost r = ranked(block@);
    let ghost rows0 = image_rows(*rgb);
    let ghost n = block@.len() as int;
    let width = rgb.width();
    proof {
        lemma_sort_len(start, by_rank::<ColorGroup>());
        lemma_sort_ascending(start, by_rank::<ColorGroup>());
    }
    while block.len() > 4
        invariant
            r == ranked(start),
            r.len() == n,
            n == start.len(),
            ascending(r, by_rank::<ColorGroup>()),
            n > 4 ==> absorbable(r, rows0, width as nat),
            rectangular(rows0, width as nat),
            image_width(*rgb) == width,
            block.len() <= n,
            n > 4 ==> block.len() >= 4,
            n <= 4 ==> block.len() == n,
            block.len() == n ==> block@ == start && image_rows(*rgb) == rows0,
            block.len() < n ==> block@ == merged(r, block.len() as int) && image_rows(*rgb)
                == painted(rows0, r, block.len() as int, 0),
        decreases block.len(),
    {
        let ghost m = block.len() as int;
        proof {
            lemma_tail_count(r, 4, m);
            if m < n {
                lemma_merged_ascending(r, m);
                lemma_sort_of_ascending(merged(r, m), by_rank::<ColorGroup>());
            } else {
                lemma_merged_whole(r);
                lemma_painted_none(rows0, r);
            }
        }
        sort_stably(block);
        assert(block@ == merged(r, m));
        assert(image_rows(*rgb) == painted(rows0, r, m, 0));
        let last = block.remove(block.len() - 1);
        assert(last == r[m - 1]);
        let color = block[0].color;
        assert(color == r[0].color);
        let mut j: usize = 0;
        while j < last.points.len()
            invariant
                j <= last.points.len(),
                last == r[m - 1],
                color == r[0].color,
                5 <= m <= r.len(),
                absorbable(r, rows0, width as nat),
                rectangular(rows0, width as nat),
                image_width(*rgb) == width,
                image_rows(*rgb) == painted(rows0, r, m, j as int),
            decreases last.points.len() - j,
        {
            let point = last.points[j];
            assert(point == r[m - 1].points@[j as int]);
            proof {
                lemma_painted_step(rows0, width as nat, r, m, j as int);
            }
            rgb.put_pixel(point.0, point.1, color);
            j += 1;
        }
        proof {
            lemma_painted_next(rows0, r, m);
            lemma_tail_count(r, 4, m - 1);
            assert(tail_count(r, m - 1) == r[m - 1].count + tail_count(r, m));
        }
        let first = block.remove(0);
        block.insert(
            0,
            ColorGroup { count: first.count + last.count, color: first.color, points: first.points },
        );
        assert(block@ =~= merged(r, m - 1));
    }
    proof {
        if n > 4 {
            lemma_painted_final(rows0, r);
        }
    }
}

} // verus!
