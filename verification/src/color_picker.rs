//! Picking colours: the average colour of a rectangle of a picture in
//! constant time, and the colour of a list of pixels that no single step
//! of one channel improves.

use crate::arith::{lemma_round_div_bounded, round_div, rounded_quotient};
use crate::color::{lemma_color_eq, Color};
use crate::consts::{MAX_COLOR_DIST, MAX_SIDE};
use crate::picture::cells;
use crate::sums::{
    column_of, lemma_partial_sum_bound, lemma_sum_rect_bound, lemma_sum_rect_split_x,
    lemma_sum_rect_split_y, sum_range, sum_rect,
};
use crate::test_case::is_grid;
use crate::utils::Point;
use vstd::prelude::*;

verus! {

/// The value of channel `it` of the colour that `p` shows at a pixel.
pub open spec fn channel_at(p: Seq<Seq<Color>>, it: int) -> spec_fn(int, int) -> nat {
    |x: int, y: int| p[x][y].0[it] as nat
}

/// The sum of channel `it` of `p` over the pixels with `x0 <= x < x1` and
/// `y0 <= y < y1`.
pub open spec fn channel_sum(p: Seq<Seq<Color>>, it: int, x0: int, x1: int, y0: int, y1: int)
    -> nat {
    sum_rect(channel_at(p, it), x0, x1, y0, y1)
}

/// `c` is the colour whose channels are the rounded averages of the
/// channels of `p` over the pixels with `x0 <= x < x1` and `y0 <= y < y1`.
pub open spec fn is_average_color(
    c: Color,
    p: Seq<Seq<Color>>,
    x0: int,
    x1: int,
    y0: int,
    y1: int,
) -> bool {
    forall|it: int|
        0 <= it < 4 ==> (#[trigger] c.0[it]) == round_div(
            channel_sum(p, it, x0, x1, y0, y1),
            ((x1 - x0) * (y1 - y0)) as nat,
        )
}

/// The rounded average of channel `it` of `p` over the pixels with
/// `x0 <= x < x1` and `y0 <= y < y1`.
pub open spec fn channel_mean(p: Seq<Seq<Color>>, it: int, x0: int, x1: int, y0: int, y1: int)
    -> nat {
    round_div(channel_sum(p, it, x0, x1, y0, y1), ((x1 - x0) * (y1 - y0)) as nat)
}

/// The colour whose channels are the rounded averages of the channels of
/// `p` over the pixels with `x0 <= x < x1` and `y0 <= y < y1`.
pub open spec fn average_color(p: Seq<Seq<Color>>, x0: int, x1: int, y0: int, y1: int) -> Color {
    Color(
        [
            channel_mean(p, 0, x0, x1, y0, y1) as u8,
            channel_mean(p, 1, x0, x1, y0, y1) as u8,
            channel_mean(p, 2, x0, x1, y0, y1) as u8,
            channel_mean(p, 3, x0, x1, y0, y1) as u8,
        ],
    )
}

/// Sums of the channels of a picture over every rectangle that starts at
/// the origin.
pub struct ColorPicker {
    pref_sums: Vec<Vec<Vec<u64>>>,
    n: usize,
    m: usize,
    picture: Ghost<Seq<Seq<Color>>>,
}

impl ColorPicker {
    /// The picture that the sums were taken of.
    pub closed spec fn picture(&self) -> Seq<Seq<Color>> {
        self.picture@
    }

    /// Number of columns of the picture.
    pub closed spec fn n(&self) -> int {
        self.n as int
    }

    /// Number of rows of the picture.
    pub closed spec fn m(&self) -> int {
        self.m as int
    }

    /// The table holds, for each channel and each corner, the sum of the
    /// channel over the rectangle between the origin and the corner.
    pub closed spec fn wf(&self) -> bool {
        &&& self.n <= MAX_SIDE
        &&& self.m <= MAX_SIDE
        &&& self.pref_sums@.len() == 4
        &&& forall|it: int|
            0 <= it < 4 ==> (#[trigger] self.pref_sums@[it])@.len() == self.n + 1
        &&& forall|it: int, i: int|
            0 <= it < 4 && 0 <= i <= self.n ==> (#[trigger] self.pref_sums@[it]@[i])@.len()
                == self.m + 1
        &&& forall|it: int, i: int, j: int|
            0 <= it < 4 && 0 <= i <= self.n && 0 <= j <= self.m ==> (
            #[trigger] self.pref_sums@[it]@[i]@[j]) == channel_sum(self.picture@, it, 0, i, 0, j)
    }

    /// Takes the sums of the picture `expected`.
    pub fn new(expected: &Vec<Vec<Color>>) -> (r: ColorPicker)
        requires
            1 <= expected@.len() <= MAX_SIDE,
            expected@[0]@.len() <= MAX_SIDE,
            is_grid(expected@, expected@.len() as int, expected@[0]@.len() as int),
        ensures
            r.wf(),
            r.picture() == cells(expected@),
            r.n() == expected@.len(),
            r.m() == expected@[0]@.len(),
    {
        let n = expected.len();
        let m = expected[0].len();
        let ghost p = cells(expected@);
        let mut pref_sums: Vec<Vec<Vec<u64>>> = Vec::new();
        let mut it: usize = 0;
        while it < 4
            invariant
                it <= 4,
                1 <= n <= MAX_SIDE,
                m <= MAX_SIDE,
                n == expected@.len(),
                is_grid(expected@, n as int, m as int),
                p == cells(expected@),
                pref_sums@.len() == it,
                forall|k: int| 0 <= k < it ==> (#[trigger] pref_sums@[k])@.len() == n + 1,
                forall|k: int, i: int|
                    0 <= k < it && 0 <= i <= n ==> (#[trigger] pref_sums@[k]@[i])@.len() == m + 1,
                forall|k: int, i: int, j: int|
                    0 <= k < it && 0 <= i <= n && 0 <= j <= m ==> (
                    #[trigger] pref_sums@[k]@[i]@[j]) == channel_sum(p, k, 0, i, 0, j),
            decreases 4 - it,
        {
            let plane = Self::plane(expected, it, n, m);
            pref_sums.push(plane);
            it = it + 1;
        }
        ColorPicker { pref_sums, n, m, picture: Ghost(p) }
    }

    /// The sums of channel `it` of `expected` over every rectangle that
    /// starts at the origin.
    fn plane(expected: &Vec<Vec<Color>>, it: usize, n: usize, m: usize) -> (plane: Vec<Vec<u64>>)
        requires
            it < 4,
            1 <= n <= MAX_SIDE,
            m <= MAX_SIDE,
            n == expected@.len(),
            is_grid(expected@, n as int, m as int),
        ensures
            plane@.len() == n + 1,
            forall|i: int| 0 <= i <= n ==> (#[trigger] plane@[i])@.len() == m + 1,
            forall|i: int, j: int|
                0 <= i <= n && 0 <= j <= m ==> (#[trigger] plane@[i]@[j]) == channel_sum(
                    cells(expected@),
                    it as int,
                    0,
                    i,
                    0,
                    j,
                ),
    {
        let ghost p = cells(expected@);
        let ghost f = channel_at(p, it as int);
        proof {
            assert forall|i: int, j: int| #[trigger] f(i, j) <= 255 by {}
        }
        let mut plane: Vec<Vec<u64>> = Vec::new();
        let mut first: Vec<u64> = Vec::new();
        let mut j: usize = 0;
        while j <= m
            invariant
                j <= m + 1,
                m <= MAX_SIDE,
                first@.len() == j,
                forall|k: int| 0 <= k < j ==> first@[k] == 0,
            decreases m + 1 - j,
        {
            first.push(0);
            j = j + 1;
        }
        plane.push(first);
        let mut i: usize = 0;
        while i < n
            invariant
                i <= n,
                it < 4,
                1 <= n <= MAX_SIDE,
                m <= MAX_SIDE,
                n == expected@.len(),
                is_grid(expected@, n as int, m as int),
                p == cells(expected@),
                f == channel_at(p, it as int),
                forall|a: int, b: int| #[trigger] f(a, b) <= 255,
                plane@.len() == i + 1,
                forall|a: int| 0 <= a <= i ==> (#[trigger] plane@[a])@.len() == m + 1,
                forall|a: int, b: int|
                    0 <= a <= i && 0 <= b <= m ==> (#[trigger] plane@[a]@[b]) == sum_rect(
                        f,
                        0,
                        a,
                        0,
                        b,
                    ),
            decreases n - i,
        {
            let mut row: Vec<u64> = Vec::new();
            let mut below: u64 = 0;
            assert(expected@[i as int].len() == m);
            assert(plane@[i as int]@.len() == m + 1);
            row.push(plane[i][0]);
            let mut j: usize = 0;
            while j < m
                invariant
                    j <= m,
                    i < n,
                    it < 4,
                    1 <= n <= MAX_SIDE,
                    m <= MAX_SIDE,
                    n == expected@.len(),
                    expected@[i as int].len() == m,
                    p == cells(expected@),
                    f == channel_at(p, it as int),
                    forall|a: int, b: int| #[trigger] f(a, b) <= 255,
                    plane@.len() == i + 1,
                    plane@[i as int]@.len() == m + 1,
                    forall|b: int|
                        0 <= b <= m ==> (#[trigger] plane@[i as int]@[b]) == sum_rect(
                            f,
                            0,
                            i as int,
                            0,
                            b,
                        ),
                    row@.len() == j + 1,
                    below == sum_range(column_of(f, i as int), 0, j as int),
                    forall|b: int|
                        0 <= b <= j ==> (#[trigger] row@[b]) == sum_rect(f, 0, i + 1, 0, b),
                decreases m - j,
            {
                let v: u8 = expected[i][j].0[it];
                proof {
                    assert(column_of(f, i as int)(j as int) == v);
                    lemma_partial_sum_bound(f, 0, i as int, 0, j + 1, j + 1, 255, n as int, m as int);
                    assert(255 * (n * m) <= 255 * (65535 * 65535)) by (nonlinear_arith)
                        requires
                            0 <= n <= 65535,
                            0 <= m <= 65535,
                    ;
                }
                below = below + v as u64;
                row.push(plane[i][j + 1] + below);
                j = j + 1;
            }
            plane.push(row);
            i = i + 1;
        }
        plane
    }

    /// The colour whose channels are the rounded averages of the channels
    /// of the picture over the rectangle from `fr` to `to`, `to` excluded.
    pub fn pick_color(&self, fr: Point, to: Point) -> (res: Color)
        requires
            self.wf(),
            0 <= fr.x < to.x <= self.n(),
            0 <= fr.y < to.y <= self.m(),
        ensures
            is_average_color(
                res,
                self.picture(),
                fr.x as int,
                to.x as int,
                fr.y as int,
                to.y as int,
            ),
            res == average_color(
                self.picture(),
                fr.x as int,
                to.x as int,
                fr.y as int,
                to.y as int,
            ),
    {
        let x0: usize = fr.x as usize;
        let x1: usize = to.x as usize;
        let y0: usize = fr.y as usize;
        let y1: usize = to.y as usize;
        assert(0 < (x1 - x0) * (y1 - y0) <= 65535 * 65535) by (nonlinear_arith)
            requires
                0 < x1 - x0 <= 65535,
                0 < y1 - y0 <= 65535,
        ;
        let area: u64 = ((x1 - x0) * (y1 - y0)) as u64;
        let mut res = Color([0, 0, 0, 0]);
        let mut it: usize = 0;
        while it < 4
            invariant
                it <= 4,
                self.wf(),
                x0 < x1 <= self.n,
                y0 < y1 <= self.m,
                area == (x1 - x0) * (y1 - y0),
                0 < area <= 65535 * 65535,
                forall|k: int|
                    0 <= k < it ==> (#[trigger] res.0[k]) == round_div(
                        channel_sum(
                            self.picture@,
                            k,
                            x0 as int,
                            x1 as int,
                            y0 as int,
                            y1 as int,
                        ),
                        area as nat,
                    ),
            decreases 4 - it,
        {
            let ghost f = channel_at(self.picture@, it as int);
            proof {
                lemma_sum_rect_split_x(f, 0, x0 as int, x1 as int, 0, y1 as int);
                lemma_sum_rect_split_y(f, x0 as int, x1 as int, 0, y0 as int, y1 as int);
                lemma_sum_rect_split_x(f, 0, x0 as int, x1 as int, 0, y0 as int);
                assert forall|a: int, b: int| #[trigger] f(a, b) <= 255 by {}
                lemma_sum_rect_bound(f, x0 as int, x1 as int, y0 as int, y1 as int, 255);
                lemma_sum_rect_bound(f, 0, x1 as int, 0, y1 as int, 255);
                lemma_sum_rect_bound(f, 0, x0 as int, 0, y0 as int, 255);
                assert((x1 - 0) * (y1 - 0) <= 65535 * 65535 && (x0 - 0) * (y0 - 0) <= 65535 * 65535)
                    by (nonlinear_arith)
                    requires
                        0 <= x0 < x1 <= 65535,
                        0 <= y0 < y1 <= 65535,
                ;
                assert(self.pref_sums@[it as int]@[x1 as int]@[y1 as int] == sum_rect(
                    f,
                    0,
                    x1 as int,
                    0,
                    y1 as int,
                ));
                assert(self.pref_sums@[it as int]@[x0 as int]@[y0 as int] == sum_rect(
                    f,
                    0,
                    x0 as int,
                    0,
                    y0 as int,
                ));
                assert(self.pref_sums@[it as int]@[x1 as int]@[y0 as int] == sum_rect(
                    f,
                    0,
                    x1 as int,
                    0,
                    y0 as int,
                ));
                assert(self.pref_sums@[it as int]@[x0 as int]@[y1 as int] == sum_rect(
                    f,
                    0,
                    x0 as int,
                    0,
                    y1 as int,
                ));
                assert(self.pref_sums@[it as int]@.len() == self.n + 1);
                assert(self.pref_sums@[it as int]@[x1 as int]@.len() == self.m + 1);
                assert(self.pref_sums@[it as int]@[x0 as int]@.len() == self.m + 1);
            }
            let mut sum: u64 = self.pref_sums[it][x1][y1] + self.pref_sums[it][x0][y0];
            sum = sum - self.pref_sums[it][x1][y0];
            sum = sum - self.pref_sums[it][x0][y1];
            proof {
                assert(sum == sum_rect(f, x0 as int, x1 as int, y0 as int, y1 as int));
                lemma_round_div_bounded(sum as nat, area as nat, 255);
            }
            let av = rounded_quotient(sum as u128, area as u128);
            let ghost prev = res;
            res.0[it] = av as u8;
            proof {
                assert forall|k: int| 0 <= k < it + 1 implies (#[trigger] res.0[k]) == round_div(
                    channel_sum(self.picture@, k, x0 as int, x1 as int, y0 as int, y1 as int),
                    area as nat,
                ) by {
                    if k < it {
                        assert(res.0[k] == prev.0[k]);
                    }
                }
            }
            it = it + 1;
        }
        proof {
            let want = average_color(
                self.picture@,
                x0 as int,
                x1 as int,
                y0 as int,
                y1 as int,
            );
            assert(res.0[0] == want.0[0]);
            assert(res.0[1] == want.0[1]);
            assert(res.0[2] == want.0[2]);
            assert(res.0[3] == want.0[3]);
            lemma_color_eq(res, want);
        }
        res
    }
}

/// The sum of the distances between `my` and each of `colors`.
pub open spec fn list_distance(colors: Seq<Color>, my: Color) -> nat {
    sum_range(|i: int| crate::color::color_dist(colors[i], my), 0, colors.len() as int)
}

/// The colour `c` with channel `it` set to `v`.
pub open spec fn with_channel(c: Color, it: int, v: u8) -> Color {
    Color(
        [
            if it == 0 {
                v
            } else {
                c.0[0]
            },
            if it == 1 {
                v
            } else {
                c.0[1]
            },
            if it == 2 {
                v
            } else {
                c.0[2]
            },
            if it == 3 {
                v
            } else {
                c.0[3]
            },
        ],
    )
}

/// No step of one channel of `my` by one brings `my` closer to `colors`.
pub open spec fn is_local_best(colors: Seq<Color>, my: Color) -> bool {
    forall|it: int, v: u8|
        0 <= it < 4 && (v == my.0[it] + 1 || v == my.0[it] - 1) ==> list_distance(colors, my)
            <= list_distance(colors, #[trigger] with_channel(my, it, v))
}

/// The colour `c` with channel `it` set to `v`, if `v` is a channel value
/// and the colour gets closer to `colors` by it; else `c`.
pub open spec fn stepped(colors: Seq<Color>, c: Color, it: int, v: int) -> Color {
    if 0 <= v <= 255 && list_distance(colors, with_channel(c, it, v as u8)) < list_distance(
        colors,
        c,
    ) {
        with_channel(c, it, v as u8)
    } else {
        c
    }
}

/// The colour `c` after channel `it` was stepped down by one, if that
/// brings the colour closer to `colors`, and then up by one, if that does.
pub open spec fn channel_swept(colors: Seq<Color>, c: Color, it: int) -> Color {
    let down = stepped(colors, c, it, c.0[it] - 1);
    stepped(colors, down, it, down.0[it] + 1)
}

/// The colour `c` after its first `it` channels were swept, one after the
/// other.
pub open spec fn swept(colors: Seq<Color>, c: Color, it: int) -> Color
    decreases it,
{
    if it <= 0 {
        c
    } else {
        channel_swept(colors, swept(colors, c, it - 1), it - 1)
    }
}

/// The colour that is reached from `c` by sweeping the four channels again
/// and again, as long as a sweep brings the colour closer to `colors`.
pub open spec fn climb(colors: Seq<Color>, c: Color) -> Color
    decreases list_distance(colors, c),
{
    let d = swept(colors, c, 4);
    if list_distance(colors, d) < list_distance(colors, c) {
        climb(colors, d)
    } else {
        c
    }
}

/// Sums the distances between `my` and each of `colors`.
fn colors_dist(colors: &[Color], my: Color) -> (res: u128)
    ensures
        res == list_distance(colors@, my),
        res <= colors@.len() * MAX_COLOR_DIST,
{
    let ghost f = |i: int| crate::color::color_dist(colors@[i], my);
    let mut res: u128 = 0;
    let mut i: usize = 0;
    while i < colors.len()
        invariant
            i <= colors@.len(),
            f == |i: int| crate::color::color_dist(colors@[i], my),
            res == sum_range(f, 0, i as int),
            res <= i * MAX_COLOR_DIST,
        decreases colors@.len() - i,
    {
        let d = colors[i].dist(&my);
        proof {
            assert(f(i as int) == d);
            assert((i + 1) * MAX_COLOR_DIST == i * MAX_COLOR_DIST + MAX_COLOR_DIST)
                by (nonlinear_arith);
            assert(i * MAX_COLOR_DIST + MAX_COLOR_DIST <= 0x1_0000_0000_0000_0000 * 510_000_000)
                by (nonlinear_arith)
                requires
                    i < 0x1_0000_0000_0000_0000,
                    MAX_COLOR_DIST == 510_000_000,
            ;
        }
        res = res + d as u128;
        i = i + 1;
    }
    res
}

/// Tries `my` with channel `it` set to `v`, and keeps it if it is closer to
/// `colors` than `best`, the distance of `my`.
fn try_step(colors: &[Color], my: &mut Color, best: &mut u128, it: usize, v: u8) -> (changed: bool)
    requires
        it < 4,
        *old(best) == list_distance(colors@, *old(my)),
    ensures
        *final(best) == list_distance(colors@, *final(my)),
        changed ==> *final(best) < *old(best) && *final(my) == with_channel(
            *old(my),
            it as int,
            v,
        ),
        !changed ==> *final(best) == *old(best) && *final(my) == *old(my) && *old(best)
            <= list_distance(colors@, with_channel(*old(my), it as int, v)),
        *final(my) == stepped(colors@, *old(my), it as int, v as int),
{
    let mut try_color = *my;
    try_color.0[it] = v;
    proof {
        lemma_color_eq(try_color, with_channel(*my, it as int, v));
    }
    let new_dist = colors_dist(colors, try_color);
    if new_dist < *best {
        *best = new_dist;
        *my = try_color;
        true
    } else {
        false
    }
}

/// Starting from `my`, steps one channel at a time by one, as long as a
/// step brings the colour closer to `colors`: sweeps the four channels,
/// each first down and then up, again and again until a sweep changes
/// nothing.  The result is no further from `colors` than `my`, and no step
/// of one channel by one improves it.
pub fn find_best_color(colors: &[Color], my: Color) -> (res: Color)
    ensures
        res == climb(colors@, my),
        list_distance(colors@, res) <= list_distance(colors@, my),
        is_local_best(colors@, res),
{
    let ghost first = my;
    let mut my = my;
    let ghost start = list_distance(colors@, my);
    let mut best = colors_dist(colors, my);
    loop
        invariant
            best == list_distance(colors@, my),
            best <= start,
            climb(colors@, my) == climb(colors@, first),
        ensures
            best == list_distance(colors@, my),
            best <= start,
            is_local_best(colors@, my),
            my == climb(colors@, first),
        decreases best,
    {
        let ghost sweep_color = my;
        let ghost sweep_best = best;
        let mut changed = false;
        let mut it: usize = 0;
        while it < 4
            invariant
                it <= 4,
                best == list_distance(colors@, my),
                sweep_best <= start,
                sweep_best == list_distance(colors@, sweep_color),
                my == swept(colors@, sweep_color, it as int),
                changed ==> best < sweep_best,
                !changed ==> best == sweep_best && my == sweep_color,
                !changed ==> forall|k: int, v: u8|
                    0 <= k < it && (v == my.0[k] + 1 || v == my.0[k] - 1) ==> best
                        <= list_distance(colors@, #[trigger] with_channel(my, k, v)),
            decreases 4 - it,
        {
            let ghost before = my;
            let cur = my.0[it];
            let mut down = false;
            if cur > 0 {
                down = try_step(colors, &mut my, &mut best, it, cur - 1);
            }
            let ghost middle = my;
            assert(middle == stepped(colors@, before, it as int, before.0[it as int] - 1));
            let cur_up = my.0[it];
            let mut up = false;
            if cur_up < 255 {
                up = try_step(colors, &mut my, &mut best, it, cur_up + 1);
            }
            assert(my == stepped(colors@, middle, it as int, middle.0[it as int] + 1));
            if down || up {
                changed = true;
            }
            it = it + 1;
        }
        if !changed {
            break;
        }
    }
    my
}

/// The rounded average of channel `it` of `colors`.
pub open spec fn channel_average(colors: Seq<Color>, it: int) -> nat {
    round_div(sum_range(|i: int| colors[i].0[it] as nat, 0, colors.len() as int), colors.len())
}

/// The colour whose channels are the rounded averages of the channels of
/// `colors`.
pub open spec fn list_average(colors: Seq<Color>) -> Color {
    Color(
        [
            channel_average(colors, 0) as u8,
            channel_average(colors, 1) as u8,
            channel_average(colors, 2) as u8,
            channel_average(colors, 3) as u8,
        ],
    )
}

/// `c` is the colour whose channels are the rounded averages of the
/// channels of `colors`.
pub open spec fn is_list_average(c: Color, colors: Seq<Color>) -> bool {
    forall|it: int|
        0 <= it < 4 ==> (#[trigger] c.0[it]) == round_div(
            sum_range(|i: int| colors[i].0[it] as nat, 0, colors.len() as int),
            colors.len(),
        )
}

/// The colour whose channels are the rounded averages of the channels of
/// `colors`.
pub fn estimate_best_color(colors: &[Color]) -> (res: Color)
    requires
        colors@.len() >= 1,
    ensures
        is_list_average(res, colors@),
        res == list_average(colors@),
{
    let mut res = Color([0, 0, 0, 0]);
    let mut it: usize = 0;
    while it < 4
        invariant
            it <= 4,
            colors@.len() >= 1,
            forall|k: int|
                0 <= k < it ==> (#[trigger] res.0[k]) == round_div(
                    sum_range(|i: int| colors@[i].0[k] as nat, 0, colors@.len() as int),
                    colors@.len(),
                ),
        decreases 4 - it,
    {
        let ghost f = |i: int| colors@[i].0[it as int] as nat;
        let mut sum: u128 = 0;
        let mut i: usize = 0;
        while i < colors.len()
            invariant
                i <= colors@.len(),
                it < 4,
                f == |i: int| colors@[i].0[it as int] as nat,
                sum == sum_range(f, 0, i as int),
                sum <= 255 * i,
            decreases colors@.len() - i,
        {
            let v = colors[i].0[it];
            assert(f(i as int) == v);
            sum = sum + v as u128;
            i = i + 1;
        }
        proof {
            lemma_round_div_bounded(sum as nat, colors@.len(), 255);
        }
        let av = rounded_quotient(sum, colors.len() as u128);
        let ghost prev = res;
        res.0[it] = av as u8;
        proof {
            assert forall|k: int| 0 <= k < it + 1 implies (#[trigger] res.0[k]) == round_div(
                sum_range(|i: int| colors@[i].0[k] as nat, 0, colors@.len() as int),
                colors@.len(),
            ) by {
                if k < it {
                    assert(res.0[k] == prev.0[k]);
                }
            }
        }
        it = it + 1;
    }
    proof {
        assert(res.0[0] == channel_average(colors@, 0));
        assert(res.0[1] == channel_average(colors@, 1));
        assert(res.0[2] == channel_average(colors@, 2));
        assert(res.0[3] == channel_average(colors@, 3));
        lemma_color_eq(res, list_average(colors@));
    }
    res
}

} // verus!
