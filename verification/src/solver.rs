//! The hierarchical solver: for every window of a coordinate grid, the
//! cheapest known way to paint it: in one colour, split along a line of
//! the grid, or as a finer grid paints it.

use crate::color::Color;
use crate::color_corner::{color_corner, corner_cost, MAX_CORNER_COST};
use crate::color_picker::{average_color, is_average_color, ColorPicker};
use crate::consts::{FMAX, MAX_SIDE, SCORE_SCALE};
use crate::coords::{coords_ok, increasing, refines};
use crate::picture::cells;
use crate::pixel_dist::{
    estimate_pixel_distance_range_one_color, estimated_distance, flat_distance,
    get_pixel_distance_range_one_color, EstimateResult, MAX_PIXEL_DIST, SMALL_AREA,
};
use crate::rand::Random;
use crate::test_case::{is_grid, TestCase};
use crate::utils::{p, Point};
pub use crate::coords::{add_more_coords, gen_coords, get_mapping};
pub use crate::solution::SolutionRect;
pub use crate::solve::{solve_one, SolutionRes};
use vstd::prelude::*;

verus! {

/// How a window is painted.
#[derive(Clone, Copy, Debug)]
pub enum BestWay {
    /// In one colour.
    FullColor(Color),
    /// As its parts to the left and to the right of a line of the grid.
    SplitX(usize),
    /// As its parts below and above a line of the grid.
    SplitY(usize),
    /// As the finer grid paints it.
    SolveRec,
}

/// The score of the cheapest known way to paint a window, and the way; and
/// what the solver saw when it weighed painting the window in one colour.
#[derive(Clone, Copy)]
pub struct Cell {
    pub cost: u128,
    pub way: BestWay,
    /// The state of the generator before the pixel distance of the window
    /// in one colour was estimated.
    pub seed: Ghost<u64>,
    /// The score of the cheapest other way to paint the window, or `FMAX`
    /// if there is none.
    pub before: Ghost<u128>,
}

/// The table of one grid.  A window starts at the lines `x_it` and `y_it`
/// of the grid and spans `x_len` and `y_len` intervals;
/// `table[x_it][y_it][x_len][y_len]` is its cell.
pub struct Level {
    pub table: Vec<Vec<Vec<Vec<Cell>>>>,
    pub xs: Vec<usize>,
    pub ys: Vec<usize>,
    pub max_next_x_blocks: usize,
    pub max_next_y_blocks: usize,
    /// For each line of `xs`, its position in the finer grid.
    pub x_map: Vec<usize>,
    /// For each line of `ys`, its position in the finer grid.
    pub y_map: Vec<usize>,
}

/// The tables of the grids, the finest first.  Each but the first may hand
/// a window on to the one before it.
pub struct Solution {
    pub levels: Vec<Level>,
    /// What the tables were filled in for.
    pub env: Ghost<Env>,
}

/// What the solver works on.
pub struct Env {
    pub n: int,
    pub m: int,
    pub expected: Seq<Seq<Color>>,
    pub test_id: usize,
}

/// Numerator of the factor by which an estimated pixel distance is
/// discounted.
pub const ESTIMATE_NUM: u128 = 4;

/// Denominator of the factor by which an estimated pixel distance is
/// discounted.
pub const ESTIMATE_DEN: u128 = 5;

/// Largest number of intervals of a finer grid that a window may span.
pub const MAX_NEXT_BLOCKS: usize = 15;

/// Largest score of a window that is painted in one colour.
pub const MAX_SOLID_SCORE: u128 = 9_062_104_436_750_000_000;

/// The cell of the table `t` at the given place.
pub open spec fn cell_at(t: Seq<Vec<Vec<Vec<Cell>>>>, a: int, b: int, c: int, d: int) -> Cell {
    t[a]@[b]@[c]@[d]
}

/// The table `t` has a block of `mx + 1` by `my + 1` cells for each of
/// `nx` by `ny` starting points.
pub open spec fn table_shape(t: Seq<Vec<Vec<Vec<Cell>>>>, nx: int, ny: int, mx: int, my: int)
    -> bool {
    &&& t.len() == nx
    &&& forall|a: int| 0 <= a < nx ==> (#[trigger] t[a])@.len() == ny
    &&& forall|a: int, b: int|
        0 <= a < nx && 0 <= b < ny ==> (#[trigger] t[a]@[b])@.len() == mx + 1
    &&& forall|a: int, b: int, c: int|
        0 <= a < nx && 0 <= b < ny && 0 <= c <= mx ==> (#[trigger] t[a]@[b]@[c])@.len() == my + 1
}

/// No cell of the table holds a score above `FMAX`.
pub open spec fn costs_bounded(t: Seq<Vec<Vec<Vec<Cell>>>>, nx: int, ny: int, mx: int, my: int)
    -> bool {
    forall|a: int, b: int, c: int, d: int|
        0 <= a < nx && 0 <= b < ny && 0 <= c <= mx && 0 <= d <= my ==> (#[trigger] cell_at(
            t,
            a,
            b,
            c,
            d,
        )).cost <= FMAX
}

/// Every cell of the table holds the score `FMAX`, which stands for no
/// score.
pub open spec fn all_unset(t: Seq<Vec<Vec<Vec<Cell>>>>, nx: int, ny: int, mx: int, my: int) -> bool {
    forall|a: int, b: int, c: int, d: int|
        0 <= a < nx && 0 <= b < ny && 0 <= c <= mx && 0 <= d <= my ==> (#[trigger] cell_at(
            t,
            a,
            b,
            c,
            d,
        )).cost == FMAX
}

impl Level {
    /// Every cell of the table that stands for no window of the grid holds
    /// the score `FMAX`, which stands for no score.
    pub open spec fn unset_outside(&self) -> bool {
        forall|a: int, b: int, c: int, d: int|
            0 <= a < self.nx() && 0 <= b < self.ny() && 0 <= c <= self.max_next_x_blocks && 0 <= d
                <= self.max_next_y_blocks && !self.window(a, b, c, d) ==> (#[trigger] self.cell(
                a,
                b,
                c,
                d,
            )).cost == FMAX
    }

    /// Number of starting lines in `x`.
    pub open spec fn nx(&self) -> int {
        self.xs@.len() - 1
    }

    /// Number of starting lines in `y`.
    pub open spec fn ny(&self) -> int {
        self.ys@.len() - 1
    }

    /// The grids lie on a canvas of `n` columns and `m` rows, and the table
    /// has the shape that they ask for.
    pub open spec fn shape(&self, n: int, m: int) -> bool {
        &&& coords_ok(self.xs@, n)
        &&& coords_ok(self.ys@, m)
        &&& table_shape(
            self.table@,
            self.nx(),
            self.ny(),
            self.max_next_x_blocks as int,
            self.max_next_y_blocks as int,
        )
        &&& costs_bounded(
            self.table@,
            self.nx(),
            self.ny(),
            self.max_next_x_blocks as int,
            self.max_next_y_blocks as int,
        )
    }

    /// The window that starts at the lines `a` and `b` and spans `c` and `d`
    /// intervals lies on the grid and within the spans that the table
    /// holds.
    pub open spec fn window(&self, a: int, b: int, c: int, d: int) -> bool {
        &&& 0 <= a
        &&& 0 <= b
        &&& 1 <= c <= self.max_next_x_blocks
        &&& 1 <= d <= self.max_next_y_blocks
        &&& a + c < self.xs@.len()
        &&& b + d < self.ys@.len()
    }

    /// The cell of a window.
    pub open spec fn cell(&self, a: int, b: int, c: int, d: int) -> Cell {
        cell_at(self.table@, a, b, c, d)
    }

    /// Every line of the grids is found in the grids of `finer` where the
    /// maps say.
    pub open spec fn maps_ok(&self, finer: Level) -> bool {
        &&& self.x_map@.len() == self.xs@.len()
        &&& self.y_map@.len() == self.ys@.len()
        &&& forall|i: int|
            0 <= i < self.xs@.len() ==> (#[trigger] self.x_map@[i]) < finer.xs@.len()
                && finer.xs@[self.x_map@[i] as int] == self.xs@[i]
        &&& forall|i: int|
            0 <= i < self.ys@.len() ==> (#[trigger] self.y_map@[i]) < finer.ys@.len()
                && finer.ys@[self.y_map@[i] as int] == self.ys@[i]
    }
}

/// The score of painting a window in the colour `col`: the cost that the
/// corner cost model gives for its lower left corner, in score units, and
/// the pixel distance of the colour over the window.
pub open spec fn solid_score(env: Env, lv: Level, a: int, b: int, c: int, d: int, col: Color)
    -> nat {
    corner_cost(
        env.n,
        env.m,
        Point { x: lv.xs@[a] as i32, y: lv.ys@[b] as i32 },
        env.test_id,
    ) * (SCORE_SCALE as nat) + flat_distance(
        col,
        env.expected,
        lv.xs@[a] as int,
        lv.xs@[a + c] as int,
        lv.ys@[b] as int,
        lv.ys@[b + d] as int,
    )
}

/// `cost` is the score of painting the window in the way `way`.
pub open spec fn cand_ok(
    env: Env,
    lv: Level,
    finer: Option<Level>,
    a: int,
    b: int,
    c: int,
    d: int,
    cost: u128,
    way: BestWay,
) -> bool {
    match way {
        BestWay::FullColor(col) => cost == solid_score(env, lv, a, b, c, d, col)
            && is_average_color(
            col,
            env.expected,
            lv.xs@[a] as int,
            lv.xs@[a + c] as int,
            lv.ys@[b] as int,
            lv.ys@[b + d] as int,
        ),
        BestWay::SplitX(mid) => a < mid < a + c && cost == lv.cell(a, b, mid - a, d).cost + lv.cell(
            mid as int,
            b,
            a + c - mid,
            d,
        ).cost,
        BestWay::SplitY(mid) => b < mid < b + d && cost == lv.cell(a, b, c, mid - b).cost + lv.cell(
            a,
            mid as int,
            c,
            b + d - mid,
        ).cost,
        BestWay::SolveRec => finer is Some && finer->Some_0.window(
            lv.x_map@[a] as int,
            lv.y_map@[b] as int,
            lv.x_map@[a + c] - lv.x_map@[a],
            lv.y_map@[b + d] - lv.y_map@[b],
        ) && cost == finer->Some_0.cell(
            lv.x_map@[a] as int,
            lv.y_map@[b] as int,
            lv.x_map@[a + c] - lv.x_map@[a],
            lv.y_map@[b + d] - lv.y_map@[b],
        ).cost,
    }
}

/// The cell of the window holds a way to paint the window and its score.
pub open spec fn cell_ok(env: Env, lv: Level, finer: Option<Level>, a: int, b: int, c: int, d: int)
    -> bool {
    lv.cell(a, b, c, d).cost < FMAX && cand_ok(
        env,
        lv,
        finer,
        a,
        b,
        c,
        d,
        lv.cell(a, b, c, d).cost,
        lv.cell(a, b, c, d).way,
    )
}

/// The table of `lv` is filled in: every window has a way to be painted
/// and its score.
pub open spec fn level_ok(env: Env, lv: Level, finer: Option<Level>) -> bool {
    &&& lv.shape(env.n, env.m)
    &&& finer is Some ==> lv.maps_ok(finer->Some_0)
    &&& forall|a: int, b: int, c: int, d: int| #[trigger]
        lv.window(a, b, c, d) ==> cell_ok(env, lv, finer, a, b, c, d)
}

/// The level before level `k`, if there is one.
pub open spec fn finer_of(levels: Seq<Level>, k: int) -> Option<Level> {
    if k > 0 {
        Some(levels[k - 1])
    } else {
        None
    }
}

/// Every table is filled in.
pub open spec fn solution_ok(env: Env, levels: Seq<Level>) -> bool {
    forall|k: int| 0 <= k < levels.len() ==> level_ok(env, #[trigger] levels[k], finer_of(levels, k))
}

/// A cell that stands for no known way.
pub fn unset_cell() -> (c: Cell)
    ensures
        c.cost == FMAX,
        c.way is FullColor,
{
    Cell {
        cost: FMAX,
        way: BestWay::FullColor(Color([0, 0, 0, 0])),
        seed: Ghost(0),
        before: Ghost(FMAX),
    }
}

/// A table of the given shape in which no cell holds a way.
pub fn new_table(nx: usize, ny: usize, mx: usize, my: usize) -> (t: Vec<Vec<Vec<Vec<Cell>>>>)
    requires
        mx < usize::MAX,
        my < usize::MAX,
    ensures
        table_shape(t@, nx as int, ny as int, mx as int, my as int),
        costs_bounded(t@, nx as int, ny as int, mx as int, my as int),
        all_unset(t@, nx as int, ny as int, mx as int, my as int),
{
    let mut t: Vec<Vec<Vec<Vec<Cell>>>> = Vec::new();
    let mut a: usize = 0;
    while a < nx
        invariant
            a <= nx,
            mx < usize::MAX,
            my < usize::MAX,
            table_shape(t@, a as int, ny as int, mx as int, my as int),
            costs_bounded(t@, a as int, ny as int, mx as int, my as int),
            all_unset(t@, a as int, ny as int, mx as int, my as int),
        decreases nx - a,
    {
        let mut col: Vec<Vec<Vec<Cell>>> = Vec::new();
        let mut b: usize = 0;
        while b < ny
            invariant
                b <= ny,
                mx < usize::MAX,
                my < usize::MAX,
                col@.len() == b,
                forall|j: int| 0 <= j < b ==> (#[trigger] col@[j])@.len() == mx + 1,
                forall|j: int, c: int|
                    0 <= j < b && 0 <= c <= mx ==> (#[trigger] col@[j]@[c])@.len() == my + 1,
                forall|j: int, c: int, d: int|
                    0 <= j < b && 0 <= c <= mx && 0 <= d <= my ==> (
                    #[trigger] col@[j]@[c]@[d]).cost == FMAX,
            decreases ny - b,
        {
            let mut block: Vec<Vec<Cell>> = Vec::new();
            let mut c: usize = 0;
            while c <= mx
                invariant
                    c <= mx + 1,
                    mx < usize::MAX,
                    my < usize::MAX,
                    block@.len() == c,
                    forall|k: int| 0 <= k < c ==> (#[trigger] block@[k])@.len() == my + 1,
                    forall|k: int, d: int|
                        0 <= k < c && 0 <= d <= my ==> (#[trigger] block@[k]@[d]).cost == FMAX,
                decreases mx + 1 - c,
            {
                let mut row: Vec<Cell> = Vec::new();
                let mut d: usize = 0;
                while d <= my
                    invariant
                        d <= my + 1,
                        my < usize::MAX,
                        row@.len() == d,
                        forall|k: int| 0 <= k < d ==> (#[trigger] row@[k]).cost == FMAX,
                    decreases my + 1 - d,
                {
                    row.push(unset_cell());
                    d = d + 1;
                }
                block.push(row);
                c = c + 1;
            }
            col.push(block);
            b = b + 1;
        }
        let ghost before = t@;
        t.push(col);
        proof {
            assert forall|i: int, j: int, c: int, d: int|
                0 <= i < a + 1 && 0 <= j < ny && 0 <= c <= mx && 0 <= d <= my implies (
            #[trigger] cell_at(t@, i, j, c, d)).cost == FMAX by {
                if i < a {
                    assert(cell_at(before, i, j, c, d).cost == FMAX);
                }
            }
        }
        a = a + 1;
    }
    t
}

/// Writes `v` into one cell of the table.
pub fn set_cell(t: &mut Vec<Vec<Vec<Vec<Cell>>>>, a: usize, b: usize, c: usize, d: usize, v: Cell)
    requires
        a < old(t)@.len(),
        b < old(t)@[a as int]@.len(),
        c < old(t)@[a as int]@[b as int]@.len(),
        d < old(t)@[a as int]@[b as int]@[c as int]@.len(),
    ensures
        final(t)@.len() == old(t)@.len(),
        forall|i: int| 0 <= i < old(t)@.len() ==> (#[trigger] final(t)@[i])@.len() == old(t)@[i]@.len(),
        forall|i: int, j: int|
            0 <= i < old(t)@.len() && 0 <= j < old(t)@[i]@.len() ==> (#[trigger] final(t)@[i]@[j])@.len() == old(t)@[i]@[j]@.len(),
        forall|i: int, j: int, k: int|
            0 <= i < old(t)@.len() && 0 <= j < old(t)@[i]@.len() && 0 <= k < old(t)@[i]@[j]@.len() ==> (#[trigger] final(t)@[i]@[j]@[k])@.len() == old(t)@[i]@[j]@[k]@.len(),
        forall|i: int, j: int, k: int, l: int|
            0 <= i < old(t)@.len() && 0 <= j < old(t)@[i]@.len() && 0 <= k < old(t)@[i]@[j]@.len() && 0 <= l < old(t)@[i]@[j]@[k]@.len() ==> (#[trigger] cell_at(
                final(t)@,
                i,
                j,
                k,
                l,
            )) == (if i == a && j == b && k == c && l == d {
                v
            } else {
                cell_at(old(t)@, i, j, k, l)
            }),
{
    t[a][b][c][d] = v;
}

/// What the solver works on when it approaches the picture `expected` for
/// the instance `test_id`.
pub open spec fn env_of(expected: Seq<Vec<Color>>, test_id: usize) -> Env {
    Env {
        n: expected.len() as int,
        m: expected[0]@.len() as int,
        expected: cells(expected),
        test_id,
    }
}

/// The window `(a, b, c, d)` is filled in before the window
/// `(pa, pb, pc, pd)`: starting points from the last to the first, and for
/// one starting point the spans from the shortest on.
pub open spec fn done(a: int, b: int, c: int, d: int, pa: int, pb: int, pc: int, pd: int) -> bool {
    a > pa || (a == pa && b > pb) || (a == pa && b == pb && (c < pc || (c == pc && d < pd)))
}

/// The positions in a finer grid of the lines of a grid grow strictly.
pub proof fn lemma_map_increasing(xs: Seq<usize>, fine: Seq<usize>, map: Seq<usize>, i: int, j: int)
    requires
        increasing(xs),
        increasing(fine),
        map.len() == xs.len(),
        forall|k: int|
            0 <= k < xs.len() ==> (#[trigger] map[k]) < fine.len() && fine[map[k] as int] == xs[k],
        0 <= i < j < xs.len(),
    ensures
        map[i] < map[j],
{
    assert(map[i] < fine.len() && fine[map[i] as int] == xs[i]);
    assert(map[j] < fine.len() && fine[map[j] as int] == xs[j]);
    if map[i] > map[j] {
        assert(fine[map[j] as int] < fine[map[i] as int]);
    }
}

/// A copy of a list of numbers.
pub fn copy_coords(v: &[usize]) -> (res: Vec<usize>)
    ensures
        res@ == v@,
{
    let mut res: Vec<usize> = Vec::new();
    let mut i: usize = 0;
    while i < v.len()
        invariant
            i <= v@.len(),
            res@ == v@.take(i as int),
        decreases v@.len() - i,
    {
        res.push(v[i]);
        assert(v@.take(i + 1) =~= v@.take(i as int).push(v@[i as int]));
        i = i + 1;
    }
    assert(v@.take(i as int) =~= v@);
    res
}

/// `best`, or the way of the finer grid if the window maps onto a window of
/// the finer grid that is cheaper.
fn try_delegate(
    lv: &Level,
    fine: &Level,
    Ghost(env): Ghost<Env>,
    x_it: usize,
    y_it: usize,
    x_len: usize,
    y_len: usize,
    best: Cell,
) -> (res: Cell)
    requires
        lv.shape(env.n, env.m),
        fine.shape(env.n, env.m),
        lv.maps_ok(*fine),
        lv.window(x_it as int, y_it as int, x_len as int, y_len as int),
        best.cost <= FMAX,
        best.cost == FMAX || cand_ok(
            env,
            *lv,
            Some(*fine),
            x_it as int,
            y_it as int,
            x_len as int,
            y_len as int,
            best.cost,
            best.way,
        ),
    ensures
        res.cost <= best.cost,
        res.cost == FMAX || cand_ok(
            env,
            *lv,
            Some(*fine),
            x_it as int,
            y_it as int,
            x_len as int,
            y_len as int,
            res.cost,
            res.way,
        ),
        fine.window(
            lv.x_map@[x_it as int] as int,
            lv.y_map@[y_it as int] as int,
            lv.x_map@[x_it + x_len] - lv.x_map@[x_it as int],
            lv.y_map@[y_it + y_len] - lv.y_map@[y_it as int],
        ) ==> res.cost <= fine.cell(
            lv.x_map@[x_it as int] as int,
            lv.y_map@[y_it as int] as int,
            lv.x_map@[x_it + x_len] - lv.x_map@[x_it as int],
            lv.y_map@[y_it + y_len] - lv.y_map@[y_it as int],
        ).cost,
        res == best || (res.way is SolveRec && res.cost < best.cost),
{
    proof {
        lemma_map_increasing(lv.xs@, fine.xs@, lv.x_map@, x_it as int, x_it + x_len);
        lemma_map_increasing(lv.ys@, fine.ys@, lv.y_map@, y_it as int, y_it + y_len);
    }
    let xn = lv.xs.len();
    let yn = lv.ys.len();
    assert(x_it + x_len < xn && y_it + y_len < yn);
    let x_it_smaller = lv.x_map[x_it];
    let y_it_smaller = lv.y_map[y_it];
    let x2_it_smaller = lv.x_map[x_it + x_len];
    let y2_it_smaller = lv.y_map[y_it + y_len];
    let x_len_smaller = x2_it_smaller - x_it_smaller;
    let y_len_smaller = y2_it_smaller - y_it_smaller;
    if x_len_smaller <= fine.max_next_x_blocks && y_len_smaller <= fine.max_next_y_blocks {
        assert(fine.window(
            x_it_smaller as int,
            y_it_smaller as int,
            x_len_smaller as int,
            y_len_smaller as int,
        ));
        assert(fine.table@[x_it_smaller as int]@.len() == fine.ny());
        assert(fine.table@[x_it_smaller as int]@[y_it_smaller as int]@.len()
            == fine.max_next_x_blocks + 1);
        assert(fine.table@[x_it_smaller as int]@[y_it_smaller as int]@[x_len_smaller as int]@.len()
            == fine.max_next_y_blocks + 1);
        let cost = fine.table[x_it_smaller][y_it_smaller][x_len_smaller][y_len_smaller].cost;
        assert(cost == fine.cell(
            x_it_smaller as int,
            y_it_smaller as int,
            x_len_smaller as int,
            y_len_smaller as int,
        ).cost);
        if cost < best.cost {
            return Cell { cost, way: BestWay::SolveRec, seed: best.seed, before: best.before };
        }
    }
    best
}

/// `v` is a split of the window, and every split that is tried before it
/// scores above it.
pub open spec fn fresh_split(lv: Level, a: int, b: int, c: int, d: int, v: Cell) -> bool {
    match v.way {
        BestWay::SplitX(mid) => forall|other: int|
            a < other < mid ==> #[trigger] split_x_cost(lv, a, b, c, d, other) > v.cost,
        BestWay::SplitY(mid) => (forall|other: int|
            a < other < a + c ==> #[trigger] split_x_cost(lv, a, b, c, d, other) > v.cost)
            && forall|other: int|
            b < other < mid ==> #[trigger] split_y_cost(lv, a, b, c, d, other) > v.cost,
        _ => false,
    }
}

/// `best`, or the cheapest split of the window along a line of the grid if
/// that is cheaper; of several equally cheap splits the first, splits along
/// `x` before splits along `y`.
fn try_splits(
    lv: &Level,
    Ghost(env): Ghost<Env>,
    Ghost(finer): Ghost<Option<Level>>,
    x_it: usize,
    y_it: usize,
    x_len: usize,
    y_len: usize,
    best: Cell,
) -> (res: Cell)
    requires
        lv.shape(env.n, env.m),
        lv.window(x_it as int, y_it as int, x_len as int, y_len as int),
        best.cost <= FMAX,
        best.cost == FMAX || cand_ok(
            env,
            *lv,
            finer,
            x_it as int,
            y_it as int,
            x_len as int,
            y_len as int,
            best.cost,
            best.way,
        ),
    ensures
        res.cost <= best.cost,
        res.cost == FMAX || cand_ok(
            env,
            *lv,
            finer,
            x_it as int,
            y_it as int,
            x_len as int,
            y_len as int,
            res.cost,
            res.way,
        ),
        forall|mid: int|
            x_it < mid < x_it + x_len ==> res.cost <= (#[trigger] lv.cell(
                x_it as int,
                y_it as int,
                mid - x_it,
                y_len as int,
            )).cost + lv.cell(mid, y_it as int, x_it + x_len - mid, y_len as int).cost,
        forall|mid: int|
            y_it < mid < y_it + y_len ==> res.cost <= (#[trigger] lv.cell(
                x_it as int,
                y_it as int,
                x_len as int,
                mid - y_it,
            )).cost + lv.cell(x_it as int, mid, x_len as int, y_it + y_len - mid).cost,
        res == best || (res.cost < best.cost && fresh_split(
            *lv,
            x_it as int,
            y_it as int,
            x_len as int,
            y_len as int,
            res,
        )),
{
    let xn = lv.xs.len();
    let yn = lv.ys.len();
    assert(x_it + x_len < xn && y_it + y_len < yn);
    let x2_it = x_it + x_len;
    let y2_it = y_it + y_len;
    let mut cur = best;
    let mut x_mid_it = x_it + 1;
    while x_mid_it < x2_it
        invariant
            x_it < x_mid_it <= x2_it || (x_len == 1 && x_mid_it == x2_it + 0),
            x_it + 1 <= x_mid_it,
            x2_it == x_it + x_len,
            lv.shape(env.n, env.m),
            lv.window(x_it as int, y_it as int, x_len as int, y_len as int),
            cur.cost <= best.cost <= FMAX,
            cur.cost == FMAX || cand_ok(
                env,
                *lv,
                finer,
                x_it as int,
                y_it as int,
                x_len as int,
                y_len as int,
                cur.cost,
                cur.way,
            ),
            forall|mid: int|
                x_it < mid < x_mid_it ==> cur.cost <= (#[trigger] lv.cell(
                    x_it as int,
                    y_it as int,
                    mid - x_it,
                    y_len as int,
                )).cost + lv.cell(mid, y_it as int, x_it + x_len - mid, y_len as int).cost,
            forall|mid: int|
                x_it < mid < x_mid_it ==> cur.cost <= #[trigger] split_x_cost(
                    *lv,
                    x_it as int,
                    y_it as int,
                    x_len as int,
                    y_len as int,
                    mid,
                ),
            cur == best || (cur.cost < best.cost && (match cur.way {
                BestWay::SplitX(mid) => x_it < mid < x_mid_it && forall|other: int|
                    x_it < other < mid ==> #[trigger] split_x_cost(
                        *lv,
                        x_it as int,
                        y_it as int,
                        x_len as int,
                        y_len as int,
                        other,
                    ) > cur.cost,
                _ => false,
            })),
        decreases x2_it - x_mid_it,
    {
        proof {
            lemma_block_shape(*lv, x_it as int, y_it as int, env.n, env.m);
            lemma_block_shape(*lv, x_mid_it as int, y_it as int, env.n, env.m);
            assert(cell_at(lv.table@, x_it as int, y_it as int, x_mid_it - x_it, y_len as int).cost
                <= FMAX);
            assert(cell_at(lv.table@, x_mid_it as int, y_it as int, x2_it - x_mid_it, y_len as int).cost
                <= FMAX);
        }
        let cost = lv.table[x_it][y_it][x_mid_it - x_it][y_len].cost
            + lv.table[x_mid_it][y_it][x2_it - x_mid_it][y_len].cost;
        assert(cost == split_x_cost(
            *lv,
            x_it as int,
            y_it as int,
            x_len as int,
            y_len as int,
            x_mid_it as int,
        ));
        if cost < cur.cost {
            cur = Cell { cost, way: BestWay::SplitX(x_mid_it), seed: cur.seed, before: cur.before };
        }
        x_mid_it = x_mid_it + 1;
    }
    let mut y_mid_it = y_it + 1;
    while y_mid_it < y2_it
        invariant
            y_it + 1 <= y_mid_it,
            y_mid_it <= y2_it,
            x2_it == x_it + x_len,
            y2_it == y_it + y_len,
            lv.shape(env.n, env.m),
            lv.window(x_it as int, y_it as int, x_len as int, y_len as int),
            cur.cost <= best.cost <= FMAX,
            cur.cost == FMAX || cand_ok(
                env,
                *lv,
                finer,
                x_it as int,
                y_it as int,
                x_len as int,
                y_len as int,
                cur.cost,
                cur.way,
            ),
            forall|mid: int|
                x_it < mid < x_it + x_len ==> cur.cost <= (#[trigger] lv.cell(
                    x_it as int,
                    y_it as int,
                    mid - x_it,
                    y_len as int,
                )).cost + lv.cell(mid, y_it as int, x_it + x_len - mid, y_len as int).cost,
            forall|mid: int|
                y_it < mid < y_mid_it ==> cur.cost <= (#[trigger] lv.cell(
                    x_it as int,
                    y_it as int,
                    x_len as int,
                    mid - y_it,
                )).cost + lv.cell(x_it as int, mid, x_len as int, y_it + y_len - mid).cost,
            forall|mid: int|
                x_it < mid < x_it + x_len ==> cur.cost <= #[trigger] split_x_cost(
                    *lv,
                    x_it as int,
                    y_it as int,
                    x_len as int,
                    y_len as int,
                    mid,
                ),
            forall|mid: int|
                y_it < mid < y_mid_it ==> cur.cost <= #[trigger] split_y_cost(
                    *lv,
                    x_it as int,
                    y_it as int,
                    x_len as int,
                    y_len as int,
                    mid,
                ),
            cur == best || (cur.cost < best.cost && (match cur.way {
                BestWay::SplitX(mid) => forall|other: int|
                    x_it < other < mid ==> #[trigger] split_x_cost(
                        *lv,
                        x_it as int,
                        y_it as int,
                        x_len as int,
                        y_len as int,
                        other,
                    ) > cur.cost,
                BestWay::SplitY(mid) => y_it < mid < y_mid_it && (forall|other: int|
                    x_it < other < x_it + x_len ==> #[trigger] split_x_cost(
                        *lv,
                        x_it as int,
                        y_it as int,
                        x_len as int,
                        y_len as int,
                        other,
                    ) > cur.cost) && forall|other: int|
                    y_it < other < mid ==> #[trigger] split_y_cost(
                        *lv,
                        x_it as int,
                        y_it as int,
                        x_len as int,
                        y_len as int,
                        other,
                    ) > cur.cost,
                _ => false,
            })),
        decreases y2_it - y_mid_it,
    {
        proof {
            lemma_block_shape(*lv, x_it as int, y_it as int, env.n, env.m);
            lemma_block_shape(*lv, x_it as int, y_mid_it as int, env.n, env.m);
            assert(cell_at(lv.table@, x_it as int, y_it as int, x_len as int, y_mid_it - y_it).cost
                <= FMAX);
            assert(cell_at(lv.table@, x_it as int, y_mid_it as int, x_len as int, y2_it - y_mid_it).cost
                <= FMAX);
        }
        let cost = lv.table[x_it][y_it][x_len][y_mid_it - y_it].cost
            + lv.table[x_it][y_mid_it][x_len][y2_it - y_mid_it].cost;
        assert(cost == split_y_cost(
            *lv,
            x_it as int,
            y_it as int,
            x_len as int,
            y_len as int,
            y_mid_it as int,
        ));
        if cost < cur.cost {
            cur = Cell { cost, way: BestWay::SplitY(y_mid_it), seed: cur.seed, before: cur.before };
        }
        y_mid_it = y_mid_it + 1;
    }
    cur
}

/// The block of a starting point has the shape that the table asks for.
pub proof fn lemma_block_shape(lv: Level, a: int, b: int, n: int, m: int)
    requires
        lv.shape(n, m),
        0 <= a < lv.nx(),
        0 <= b < lv.ny(),
    ensures
        lv.table@.len() == lv.nx(),
        lv.table@[a]@.len() == lv.ny(),
        lv.table@[a]@[b]@.len() == lv.max_next_x_blocks + 1,
        forall|c: int|
            0 <= c <= lv.max_next_x_blocks ==> (#[trigger] lv.table@[a]@[b]@[c])@.len()
                == lv.max_next_y_blocks + 1,
{
}

/// The score of a window painted in one colour is at most
/// `MAX_SOLID_SCORE`.
pub proof fn lemma_solid_score_bound(corner: u128, dist: u128)
    requires
        corner <= MAX_CORNER_COST,
        dist <= MAX_PIXEL_DIST,
    ensures
        corner * SCORE_SCALE + dist <= MAX_SOLID_SCORE,
        MAX_SOLID_SCORE < FMAX,
{
    assert(corner * SCORE_SCALE <= 34_358_689_810 * 200_000_000) by (nonlinear_arith)
        requires
            corner <= 34_358_689_810,
            SCORE_SCALE == 200_000_000,
    ;
}

/// `best`, or the window in its average colour if that is cheaper.  The
/// pixel distance of a window of `SMALL_AREA` pixels or more is first
/// estimated from a sample that `rnd` picks, and counted in full only if
/// the discounted estimate is cheaper than `best`.
fn try_solid(
    lv: &Level,
    expected: &Vec<Vec<Color>>,
    color_picker: &ColorPicker,
    test_case: &TestCase,
    rnd: &mut Random,
    Ghost(finer): Ghost<Option<Level>>,
    x_it: usize,
    y_it: usize,
    x_len: usize,
    y_len: usize,
    best: Cell,
) -> (res: Cell)
    requires
        1 <= expected@.len() <= MAX_SIDE,
        1 <= expected@[0]@.len() <= MAX_SIDE,
        is_grid(expected@, expected@.len() as int, expected@[0]@.len() as int),
        color_picker.wf(),
        color_picker.picture() == cells(expected@),
        color_picker.n() == expected@.len(),
        color_picker.m() == expected@[0]@.len(),
        lv.shape(expected@.len() as int, expected@[0]@.len() as int),
        lv.window(x_it as int, y_it as int, x_len as int, y_len as int),
        best.cost <= FMAX,
        best.cost == FMAX || cand_ok(
            env_of(expected@, test_case.test_id),
            *lv,
            finer,
            x_it as int,
            y_it as int,
            x_len as int,
            y_len as int,
            best.cost,
            best.way,
        ),
        best.cost < FMAX ==> !(best.way is FullColor),
    ensures
        res.before@ == best.cost,
        res.seed@ == old(rnd).state,
        solid_rule(
            env_of(expected@, test_case.test_id),
            *lv,
            x_it as int,
            y_it as int,
            x_len as int,
            y_len as int,
            res,
        ),
        res.cost <= best.cost,
        res.cost < FMAX,
        cand_ok(
            env_of(expected@, test_case.test_id),
            *lv,
            finer,
            x_it as int,
            y_it as int,
            x_len as int,
            y_len as int,
            res.cost,
            res.way,
        ),
        (lv.xs@[x_it + x_len] - lv.xs@[x_it as int]) * (lv.ys@[y_it + y_len] - lv.ys@[y_it as int])
            < SMALL_AREA ==> forall|col: Color|
            is_average_color(
                col,
                cells(expected@),
                lv.xs@[x_it as int] as int,
                lv.xs@[x_it + x_len] as int,
                lv.ys@[y_it as int] as int,
                lv.ys@[y_it + y_len] as int,
            ) ==> res.cost <= solid_score(
                env_of(expected@, test_case.test_id),
                *lv,
                x_it as int,
                y_it as int,
                x_len as int,
                y_len as int,
                col,
            ),
        (res.cost == best.cost && res.way == best.way) || (res.way is FullColor && res.cost
            < best.cost),
{
    reveal(solid_rule);
    let n = expected.len();
    let m = expected[0].len();
    let ghost env = env_of(expected@, test_case.test_id);
    let ghost seed = rnd.state;
    let xn = lv.xs.len();
    let yn = lv.ys.len();
    assert(x_it + x_len < xn && y_it + y_len < yn);
    let x_start = lv.xs[x_it];
    let y_start = lv.ys[y_it];
    let x_end = lv.xs[x_it + x_len];
    let y_end = lv.ys[y_it + y_len];
    proof {
        assert(lv.xs@[x_it as int] < lv.xs@[x_it + x_len]);
        assert(lv.ys@[y_it as int] < lv.ys@[y_it + y_len]);
        if x_it + x_len < lv.xs@.len() - 1 {
            assert(lv.xs@[x_it + x_len] < lv.xs@[lv.xs@.len() - 1]);
        }
        if y_it + y_len < lv.ys@.len() - 1 {
            assert(lv.ys@[y_it + y_len] < lv.ys@[lv.ys@.len() - 1]);
        }
    }
    let from = p(x_start, y_start);
    let best_color = color_picker.pick_color(from, p(x_end, y_end));
    let cost_to_color: u128 = color_corner(n, m, from, 0, best_color, test_case).cost;
    let estimated = estimate_pixel_distance_range_one_color(
        best_color,
        expected,
        x_start..x_end,
        y_start..y_end,
        rnd,
    );
    proof {
        lemma_solid_score_bound(cost_to_color, MAX_PIXEL_DIST);
        assert(cost_to_color * SCORE_SCALE <= MAX_SOLID_SCORE) by {
            lemma_solid_score_bound(cost_to_color, 0);
        }
    }
    let corner_score: u128 = cost_to_color * SCORE_SCALE;
    proof {
        let pt = Point { x: lv.xs@[x_it as int] as i32, y: lv.ys@[y_it as int] as i32 };
        assert(pt == from);
        assert(cost_to_color == corner_cost(env.n, env.m, pt, env.test_id));
    }
    let threshold: u128 = match estimated {
        EstimateResult::RealResult(x) => x + corner_score,
        EstimateResult::Estimation(x) => x * ESTIMATE_NUM / ESTIMATE_DEN + corner_score,
    };
    let mut res = Cell { cost: best.cost, way: best.way, seed: Ghost(seed), before: Ghost(best.cost) };
    proof {
        assert(best_color == average_color(
            env.expected,
            x_start as int,
            x_end as int,
            y_start as int,
            y_end as int,
        ));
        assert(threshold == solid_threshold(
            env,
            *lv,
            x_it as int,
            y_it as int,
            x_len as int,
            y_len as int,
            seed,
        ));
    }
    if threshold < best.cost {
        let dist: u128 = match estimated {
            EstimateResult::RealResult(x) => x,
            EstimateResult::Estimation(_) => get_pixel_distance_range_one_color(
                best_color,
                expected,
                x_start..x_end,
                y_start..y_end,
            ),
        };
        proof {
            lemma_solid_score_bound(cost_to_color, dist);
        }
        let cost = corner_score + dist;
        if cost < best.cost {
            res = Cell {
                cost,
                way: BestWay::FullColor(best_color),
                seed: Ghost(seed),
                before: Ghost(best.cost),
            };
        }
    }
    proof {
        if (x_end - x_start) * (y_end - y_start) < SMALL_AREA {
            assert forall|col: Color|
                is_average_color(
                    col,
                    cells(expected@),
                    x_start as int,
                    x_end as int,
                    y_start as int,
                    y_end as int,
                ) implies res.cost <= solid_score(
                env,
                *lv,
                x_it as int,
                y_it as int,
                x_len as int,
                y_len as int,
                col,
            ) by {
                assert(crate::color::same_channels(col, best_color));
                crate::color::lemma_color_eq(col, best_color);
            }
        }
    }
    res
}

/// The score of the split of the window along the line `mid` of `x`.
pub open spec fn split_x_cost(lv: Level, a: int, b: int, c: int, d: int, mid: int) -> int {
    lv.cell(a, b, mid - a, d).cost + lv.cell(mid, b, a + c - mid, d).cost
}

/// The score of the split of the window along the line `mid` of `y`.
pub open spec fn split_y_cost(lv: Level, a: int, b: int, c: int, d: int, mid: int) -> int {
    lv.cell(a, b, c, mid - b).cost + lv.cell(a, mid, c, b + d - mid).cost
}

/// The window maps onto a window of the finer grid whose score is above
/// `cost`, or onto none.
pub open spec fn delegate_dearer(
    lv: Level,
    finer: Option<Level>,
    a: int,
    b: int,
    c: int,
    d: int,
    cost: u128,
) -> bool {
    finer is Some && finer->Some_0.window(
        lv.x_map@[a] as int,
        lv.y_map@[b] as int,
        lv.x_map@[a + c] - lv.x_map@[a],
        lv.y_map@[b + d] - lv.y_map@[b],
    ) ==> finer->Some_0.cell(
        lv.x_map@[a] as int,
        lv.y_map@[b] as int,
        lv.x_map@[a + c] - lv.x_map@[a],
        lv.y_map@[b + d] - lv.y_map@[b],
    ).cost > cost
}

/// `before` is the score of the cheapest way to paint the window other than
/// in one colour, or `FMAX` if there is none or none below it.
#[verifier::opaque]
pub open spec fn before_ok(
    lv: Level,
    finer: Option<Level>,
    a: int,
    b: int,
    c: int,
    d: int,
    before: u128,
) -> bool {
    &&& before <= FMAX
    &&& forall|mid: int| a < mid < a + c ==> before <= #[trigger] split_x_cost(lv, a, b, c, d, mid)
    &&& forall|mid: int| b < mid < b + d ==> before <= #[trigger] split_y_cost(lv, a, b, c, d, mid)
    &&& finer is Some && finer->Some_0.window(
        lv.x_map@[a] as int,
        lv.y_map@[b] as int,
        lv.x_map@[a + c] - lv.x_map@[a],
        lv.y_map@[b + d] - lv.y_map@[b],
    ) ==> before <= finer->Some_0.cell(
        lv.x_map@[a] as int,
        lv.y_map@[b] as int,
        lv.x_map@[a + c] - lv.x_map@[a],
        lv.y_map@[b + d] - lv.y_map@[b],
    ).cost
    &&& {
        ||| before == FMAX
        ||| exists|mid: int| a < mid < a + c && #[trigger] split_x_cost(lv, a, b, c, d, mid) == before
        ||| exists|mid: int| b < mid < b + d && #[trigger] split_y_cost(lv, a, b, c, d, mid) == before
        ||| finer is Some && finer->Some_0.window(
            lv.x_map@[a] as int,
            lv.y_map@[b] as int,
            lv.x_map@[a + c] - lv.x_map@[a],
            lv.y_map@[b + d] - lv.y_map@[b],
        ) && finer->Some_0.cell(
            lv.x_map@[a] as int,
            lv.y_map@[b] as int,
            lv.x_map@[a + c] - lv.x_map@[a],
            lv.y_map@[b + d] - lv.y_map@[b],
        ).cost == before
    }
}

/// The score of the window in its average colour that is held against the
/// other ways first: the score itself if the window has fewer than
/// `SMALL_AREA` pixels; else the score with the pixel distance estimated
/// from a sample that the generator picks from state `seed` on, and
/// discounted.
pub open spec fn solid_threshold(env: Env, lv: Level, a: int, b: int, c: int, d: int, seed: u64)
    -> int {
    let x0 = lv.xs@[a] as int;
    let x1 = lv.xs@[a + c] as int;
    let y0 = lv.ys@[b] as int;
    let y1 = lv.ys@[b + d] as int;
    let col = average_color(env.expected, x0, x1, y0, y1);
    if (x1 - x0) * (y1 - y0) < SMALL_AREA {
        solid_score(env, lv, a, b, c, d, col) as int
    } else {
        estimated_distance(col, env.expected, x0, x1, y0, y1, seed) * ESTIMATE_NUM / (
        ESTIMATE_DEN as int) + corner_cost(
            env.n,
            env.m,
            Point { x: x0 as i32, y: y0 as i32 },
            env.test_id,
        ) * SCORE_SCALE
    }
}

/// The cell paints the window in its average colour exactly if both the
/// score that is held against the other ways first and the score of the
/// window in that colour are below the score of the cheapest other way;
/// else it holds the cheapest other way.
#[verifier::opaque]
pub open spec fn solid_rule(env: Env, lv: Level, a: int, b: int, c: int, d: int, cell: Cell)
    -> bool {
    let col = average_color(
        env.expected,
        lv.xs@[a] as int,
        lv.xs@[a + c] as int,
        lv.ys@[b] as int,
        lv.ys@[b + d] as int,
    );
    let solid = solid_score(env, lv, a, b, c, d, col);
    if solid_threshold(env, lv, a, b, c, d, cell.seed@) < cell.before@ && solid < cell.before@ {
        cell.way == BestWay::FullColor(col) && cell.cost == solid
    } else {
        cell.cost == cell.before@ && !(cell.way is FullColor)
    }
}

/// Every way to paint the window that is tried before `way` scores above
/// `cost`.  The ways are tried in this order: the finer grid's way, the
/// splits along `x` from the lowest line on, the splits along `y` from the
/// lowest line on, one colour.
pub open spec fn earlier_dearer(
    lv: Level,
    finer: Option<Level>,
    a: int,
    b: int,
    c: int,
    d: int,
    cost: u128,
    way: BestWay,
) -> bool {
    match way {
        BestWay::SolveRec => true,
        BestWay::SplitX(mid) => delegate_dearer(lv, finer, a, b, c, d, cost) && forall|other: int|
            a < other < mid ==> #[trigger] split_x_cost(lv, a, b, c, d, other) > cost,
        BestWay::SplitY(mid) => delegate_dearer(lv, finer, a, b, c, d, cost) && (forall|other: int|
            a < other < a + c ==> #[trigger] split_x_cost(lv, a, b, c, d, other) > cost) && forall|
            other: int,
        |
            b < other < mid ==> #[trigger] split_y_cost(lv, a, b, c, d, other) > cost,
        BestWay::FullColor(_) => delegate_dearer(lv, finer, a, b, c, d, cost) && (forall|other: int|
            a < other < a + c ==> #[trigger] split_x_cost(lv, a, b, c, d, other) > cost) && forall|
            other: int,
        |
            b < other < b + d ==> #[trigger] split_y_cost(lv, a, b, c, d, other) > cost,
    }
}

/// The cell of the window is no dearer than any split of the window along
/// a line of the grid, than the finer grid's way if the window maps onto a
/// window of the finer grid, and, for a window of fewer than `SMALL_AREA`
/// pixels, than the window in its average colour.  Of several ways that
/// score the same the cell holds the one that is tried first.
pub open spec fn cell_tight(
    env: Env,
    lv: Level,
    finer: Option<Level>,
    a: int,
    b: int,
    c: int,
    d: int,
) -> bool {
    &&& forall|mid: int|
        a < mid < a + c ==> lv.cell(a, b, c, d).cost <= (#[trigger] lv.cell(a, b, mid - a, d)).cost
            + lv.cell(mid, b, a + c - mid, d).cost
    &&& forall|mid: int|
        b < mid < b + d ==> lv.cell(a, b, c, d).cost <= (#[trigger] lv.cell(a, b, c, mid - b)).cost
            + lv.cell(a, mid, c, b + d - mid).cost
    &&& finer is Some && finer->Some_0.window(
        lv.x_map@[a] as int,
        lv.y_map@[b] as int,
        lv.x_map@[a + c] - lv.x_map@[a],
        lv.y_map@[b + d] - lv.y_map@[b],
    ) ==> lv.cell(a, b, c, d).cost <= finer->Some_0.cell(
        lv.x_map@[a] as int,
        lv.y_map@[b] as int,
        lv.x_map@[a + c] - lv.x_map@[a],
        lv.y_map@[b + d] - lv.y_map@[b],
    ).cost
    &&& (lv.xs@[a + c] - lv.xs@[a]) * (lv.ys@[b + d] - lv.ys@[b]) < SMALL_AREA ==> forall|
        col: Color,
    |
        is_average_color(
            col,
            env.expected,
            lv.xs@[a] as int,
            lv.xs@[a + c] as int,
            lv.ys@[b] as int,
            lv.ys@[b + d] as int,
        ) ==> lv.cell(a, b, c, d).cost <= #[trigger] solid_score(env, lv, a, b, c, d, col)
    &&& earlier_dearer(lv, finer, a, b, c, d, lv.cell(a, b, c, d).cost, lv.cell(a, b, c, d).way)
    &&& before_ok(lv, finer, a, b, c, d, lv.cell(a, b, c, d).before@)
    &&& solid_rule(env, lv, a, b, c, d, lv.cell(a, b, c, d))
}

/// Every window of `lv` has a cell that is tight.
pub open spec fn level_tight(env: Env, lv: Level, finer: Option<Level>) -> bool {
    forall|a: int, b: int, c: int, d: int| #[trigger]
        lv.window(a, b, c, d) ==> cell_tight(env, lv, finer, a, b, c, d)
}

/// Every table holds tight cells.
pub open spec fn solution_tight(env: Env, levels: Seq<Level>) -> bool {
    forall|k: int|
        0 <= k < levels.len() ==> level_tight(env, #[trigger] levels[k], finer_of(levels, k))
}

/// `after` is `before` with the cell of the window `(a0, b0, c0, d0)` set
/// to `v`.
pub open spec fn one_cell_set(
    before: Level,
    after: Level,
    a0: int,
    b0: int,
    c0: int,
    d0: int,
    v: Cell,
) -> bool {
    &&& after.xs == before.xs
    &&& after.ys == before.ys
    &&& after.x_map == before.x_map
    &&& after.y_map == before.y_map
    &&& after.max_next_x_blocks == before.max_next_x_blocks
    &&& after.max_next_y_blocks == before.max_next_y_blocks
    &&& forall|i: int, j: int, k: int, l: int|
        0 <= i < before.nx() && 0 <= j < before.ny() && 0 <= k <= before.max_next_x_blocks && 0
            <= l <= before.max_next_y_blocks ==> (#[trigger] after.cell(i, j, k, l)) == (if i
            == a0 && j == b0 && k == c0 && l == d0 {
            v
        } else {
            before.cell(i, j, k, l)
        })
}

/// Setting the cell of a window leaves the cells that stand for no window
/// as they are.
pub proof fn lemma_unset_kept(
    before: Level,
    after: Level,
    a0: int,
    b0: int,
    c0: int,
    d0: int,
    v: Cell,
)
    requires
        one_cell_set(before, after, a0, b0, c0, d0, v),
        before.window(a0, b0, c0, d0),
        before.unset_outside(),
    ensures
        after.unset_outside(),
{
    assert forall|a: int, b: int, c: int, d: int|
        0 <= a < after.nx() && 0 <= b < after.ny() && 0 <= c <= after.max_next_x_blocks && 0 <= d
            <= after.max_next_y_blocks && !after.window(a, b, c, d) implies (#[trigger] after.cell(
        a,
        b,
        c,
        d,
    )).cost == FMAX by {
        assert(!before.window(a, b, c, d));
        assert(before.cell(a, b, c, d).cost == FMAX);
    }
}

/// What a cell tells of the weighing of its window holds as long as the
/// grids and the scores of the splits of the window stay as they are.
pub proof fn lemma_rules_frame(
    env: Env,
    before: Level,
    after: Level,
    finer: Option<Level>,
    a: int,
    b: int,
    c: int,
    d: int,
    cell: Cell,
)
    requires
        after.xs == before.xs,
        after.ys == before.ys,
        after.x_map == before.x_map,
        after.y_map == before.y_map,
        forall|mid: int|
            a < mid < a + c ==> #[trigger] split_x_cost(after, a, b, c, d, mid) == split_x_cost(
                before,
                a,
                b,
                c,
                d,
                mid,
            ),
        forall|mid: int|
            b < mid < b + d ==> #[trigger] split_y_cost(after, a, b, c, d, mid) == split_y_cost(
                before,
                a,
                b,
                c,
                d,
                mid,
            ),
        before_ok(before, finer, a, b, c, d, cell.before@),
        solid_rule(env, before, a, b, c, d, cell),
    ensures
        before_ok(after, finer, a, b, c, d, cell.before@),
        solid_rule(env, after, a, b, c, d, cell),
{
    reveal(before_ok);
    reveal(solid_rule);
    let v = cell.before@;
    if exists|mid: int| a < mid < a + c && #[trigger] split_x_cost(before, a, b, c, d, mid) == v {
        let mid = choose|mid: int|
            a < mid < a + c && #[trigger] split_x_cost(before, a, b, c, d, mid) == v;
        assert(split_x_cost(after, a, b, c, d, mid) == v);
    }
    if exists|mid: int| b < mid < b + d && #[trigger] split_y_cost(before, a, b, c, d, mid) == v {
        let mid = choose|mid: int|
            b < mid < b + d && #[trigger] split_y_cost(before, a, b, c, d, mid) == v;
        assert(split_y_cost(after, a, b, c, d, mid) == v);
    }
    assert forall|mid: int| a < mid < a + c implies v <= #[trigger] split_x_cost(
        after,
        a,
        b,
        c,
        d,
        mid,
    ) by {
        assert(v <= split_x_cost(before, a, b, c, d, mid));
    }
    assert forall|mid: int| b < mid < b + d implies v <= #[trigger] split_y_cost(
        after,
        a,
        b,
        c,
        d,
        mid,
    ) by {
        assert(v <= split_y_cost(before, a, b, c, d, mid));
    }
}

/// Setting the cell of a window leaves the cells that were filled in
/// before the window as good as they were.
pub proof fn lemma_cell_frame(
    env: Env,
    before: Level,
    after: Level,
    finer: Option<Level>,
    a0: int,
    b0: int,
    c0: int,
    d0: int,
    v: Cell,
    a: int,
    b: int,
    c: int,
    d: int,
)
    requires
        one_cell_set(before, after, a0, b0, c0, d0, v),
        before.window(a, b, c, d),
        before.window(a0, b0, c0, d0),
        done(a, b, c, d, a0, b0, c0, d0),
        cell_ok(env, before, finer, a, b, c, d),
        cell_tight(env, before, finer, a, b, c, d),
    ensures
        cell_ok(env, after, finer, a, b, c, d),
        cell_tight(env, after, finer, a, b, c, d),
{
    assert(after.cell(a, b, c, d) == before.cell(a, b, c, d));
    assert forall|other: int| a < other < a + c implies #[trigger] split_x_cost(
        after,
        a,
        b,
        c,
        d,
        other,
    ) == split_x_cost(before, a, b, c, d, other) by {
        assert(after.cell(a, b, other - a, d) == before.cell(a, b, other - a, d));
        assert(after.cell(other, b, a + c - other, d) == before.cell(other, b, a + c - other, d));
    }
    assert forall|other: int| b < other < b + d implies #[trigger] split_y_cost(
        after,
        a,
        b,
        c,
        d,
        other,
    ) == split_y_cost(before, a, b, c, d, other) by {
        assert(after.cell(a, b, c, other - b) == before.cell(a, b, c, other - b));
        assert(after.cell(a, other, c, b + d - other) == before.cell(a, other, c, b + d - other));
    }
    assert forall|mid: int| a < mid < a + c implies (#[trigger] after.cell(a, b, mid - a, d))
        == before.cell(a, b, mid - a, d) && after.cell(mid, b, a + c - mid, d) == before.cell(
        mid,
        b,
        a + c - mid,
        d,
    ) by {}
    assert forall|mid: int| b < mid < b + d implies (#[trigger] after.cell(a, b, c, mid - b))
        == before.cell(a, b, c, mid - b) && after.cell(a, mid, c, b + d - mid) == before.cell(
        a,
        mid,
        c,
        b + d - mid,
    ) by {}
    assert forall|col: Color|
        #![trigger solid_score(env, after, a, b, c, d, col)]
        #![trigger solid_score(env, before, a, b, c, d, col)]
        solid_score(env, after, a, b, c, d, col) == solid_score(env, before, a, b, c, d, col) by {}
    match before.cell(a, b, c, d).way {
        BestWay::SplitX(mid) => {
            assert(after.cell(a, b, mid - a, d) == before.cell(a, b, mid - a, d));
        },
        BestWay::SplitY(mid) => {
            assert(after.cell(a, b, c, mid - b) == before.cell(a, b, c, mid - b));
        },
        _ => {},
    }
    assert forall|mid: int| a < mid < a + c implies after.cell(a, b, c, d).cost <= (
    #[trigger] after.cell(a, b, mid - a, d)).cost + after.cell(mid, b, a + c - mid, d).cost by {
        assert(before.cell(a, b, c, d).cost <= before.cell(a, b, mid - a, d).cost + before.cell(
            mid,
            b,
            a + c - mid,
            d,
        ).cost);
    }
    assert forall|mid: int| b < mid < b + d implies after.cell(a, b, c, d).cost <= (
    #[trigger] after.cell(a, b, c, mid - b)).cost + after.cell(a, mid, c, b + d - mid).cost by {
        assert(before.cell(a, b, c, d).cost <= before.cell(a, b, c, mid - b).cost + before.cell(
            a,
            mid,
            c,
            b + d - mid,
        ).cost);
    }
    lemma_rules_frame(env, before, after, finer, a, b, c, d, before.cell(a, b, c, d));
}

/// A way found for a window, and what is known of its score, hold of the
/// cell that the way is written into.
pub proof fn lemma_cell_written(
    env: Env,
    before: Level,
    after: Level,
    finer: Option<Level>,
    a: int,
    b: int,
    c: int,
    d: int,
    v: Cell,
)
    requires
        one_cell_set(before, after, a, b, c, d, v),
        before.window(a, b, c, d),
        v.cost < FMAX,
        cand_ok(env, before, finer, a, b, c, d, v.cost, v.way),
        forall|mid: int|
            a < mid < a + c ==> v.cost <= (#[trigger] before.cell(a, b, mid - a, d)).cost
                + before.cell(mid, b, a + c - mid, d).cost,
        forall|mid: int|
            b < mid < b + d ==> v.cost <= (#[trigger] before.cell(a, b, c, mid - b)).cost
                + before.cell(a, mid, c, b + d - mid).cost,
        finer is Some && finer->Some_0.window(
            before.x_map@[a] as int,
            before.y_map@[b] as int,
            before.x_map@[a + c] - before.x_map@[a],
            before.y_map@[b + d] - before.y_map@[b],
        ) ==> v.cost <= finer->Some_0.cell(
            before.x_map@[a] as int,
            before.y_map@[b] as int,
            before.x_map@[a + c] - before.x_map@[a],
            before.y_map@[b + d] - before.y_map@[b],
        ).cost,
        (before.xs@[a + c] - before.xs@[a]) * (before.ys@[b + d] - before.ys@[b]) < SMALL_AREA
            ==> forall|col: Color|
            is_average_color(
                col,
                env.expected,
                before.xs@[a] as int,
                before.xs@[a + c] as int,
                before.ys@[b] as int,
                before.ys@[b + d] as int,
            ) ==> v.cost <= #[trigger] solid_score(env, before, a, b, c, d, col),
        earlier_dearer(before, finer, a, b, c, d, v.cost, v.way),
        before_ok(before, finer, a, b, c, d, v.before@),
        solid_rule(env, before, a, b, c, d, v),
    ensures
        cell_ok(env, after, finer, a, b, c, d),
        cell_tight(env, after, finer, a, b, c, d),
{
    assert(after.cell(a, b, c, d) == v);
    assert forall|other: int| a < other < a + c implies #[trigger] split_x_cost(
        after,
        a,
        b,
        c,
        d,
        other,
    ) == split_x_cost(before, a, b, c, d, other) by {
        assert(after.cell(a, b, other - a, d) == before.cell(a, b, other - a, d));
        assert(after.cell(other, b, a + c - other, d) == before.cell(other, b, a + c - other, d));
    }
    assert forall|other: int| b < other < b + d implies #[trigger] split_y_cost(
        after,
        a,
        b,
        c,
        d,
        other,
    ) == split_y_cost(before, a, b, c, d, other) by {
        assert(after.cell(a, b, c, other - b) == before.cell(a, b, c, other - b));
        assert(after.cell(a, other, c, b + d - other) == before.cell(a, other, c, b + d - other));
    }
    assert forall|mid: int| a < mid < a + c implies (#[trigger] after.cell(a, b, mid - a, d))
        == before.cell(a, b, mid - a, d) && after.cell(mid, b, a + c - mid, d) == before.cell(
        mid,
        b,
        a + c - mid,
        d,
    ) by {}
    assert forall|mid: int| b < mid < b + d implies (#[trigger] after.cell(a, b, c, mid - b))
        == before.cell(a, b, c, mid - b) && after.cell(a, mid, c, b + d - mid) == before.cell(
        a,
        mid,
        c,
        b + d - mid,
    ) by {}
    assert forall|col: Color|
        #![trigger solid_score(env, after, a, b, c, d, col)]
        #![trigger solid_score(env, before, a, b, c, d, col)]
        solid_score(env, after, a, b, c, d, col) == solid_score(env, before, a, b, c, d, col) by {}
    match v.way {
        BestWay::SplitX(mid) => {
            assert(after.cell(a, b, mid - a, d) == before.cell(a, b, mid - a, d));
        },
        BestWay::SplitY(mid) => {
            assert(after.cell(a, b, c, mid - b) == before.cell(a, b, c, mid - b));
        },
        _ => {},
    }
    assert forall|mid: int| a < mid < a + c implies after.cell(a, b, c, d).cost <= (
    #[trigger] after.cell(a, b, mid - a, d)).cost + after.cell(mid, b, a + c - mid, d).cost by {
        assert(v.cost <= before.cell(a, b, mid - a, d).cost + before.cell(
            mid,
            b,
            a + c - mid,
            d,
        ).cost);
    }
    assert forall|mid: int| b < mid < b + d implies after.cell(a, b, c, d).cost <= (
    #[trigger] after.cell(a, b, c, mid - b)).cost + after.cell(a, mid, c, b + d - mid).cost by {
        assert(v.cost <= before.cell(a, b, c, mid - b).cost + before.cell(
            a,
            mid,
            c,
            b + d - mid,
        ).cost);
    }
    lemma_rules_frame(env, before, after, finer, a, b, c, d, v);
}

/// The cheapest known way to paint one window, given the cells of the
/// windows that are filled in before it: the finer grid's way, a split
/// along `x`, a split along `y` or the average colour, in this order, a
/// later one only if it is cheaper.
fn best_way(
    lv: &Level,
    fine: Option<&Level>,
    expected: &Vec<Vec<Color>>,
    color_picker: &ColorPicker,
    test_case: &TestCase,
    rnd: &mut Random,
    x_it: usize,
    y_it: usize,
    x_len: usize,
    y_len: usize,
) -> (v: Cell)
    requires
        1 <= expected@.len() <= MAX_SIDE,
        1 <= expected@[0]@.len() <= MAX_SIDE,
        is_grid(expected@, expected@.len() as int, expected@[0]@.len() as int),
        color_picker.wf(),
        color_picker.picture() == cells(expected@),
        color_picker.n() == expected@.len(),
        color_picker.m() == expected@[0]@.len(),
        lv.shape(expected@.len() as int, expected@[0]@.len() as int),
        lv.window(x_it as int, y_it as int, x_len as int, y_len as int),
        fine is Some ==> fine->Some_0.shape(expected@.len() as int, expected@[0]@.len() as int)
            && lv.maps_ok(*fine->Some_0),
    ensures
        v.cost < FMAX,
        ({
            let env = env_of(expected@, test_case.test_id);
            let finer = match fine {
                Some(f) => Some(*f),
                None => None,
            };
            let a = x_it as int;
            let b = y_it as int;
            let c = x_len as int;
            let d = y_len as int;
            &&& cand_ok(env, *lv, finer, a, b, c, d, v.cost, v.way)
            &&& forall|mid: int|
                a < mid < a + c ==> v.cost <= (#[trigger] lv.cell(a, b, mid - a, d)).cost + lv.cell(
                    mid,
                    b,
                    a + c - mid,
                    d,
                ).cost
            &&& forall|mid: int|
                b < mid < b + d ==> v.cost <= (#[trigger] lv.cell(a, b, c, mid - b)).cost + lv.cell(
                    a,
                    mid,
                    c,
                    b + d - mid,
                ).cost
            &&& finer is Some && finer->Some_0.window(
                lv.x_map@[a] as int,
                lv.y_map@[b] as int,
                lv.x_map@[a + c] - lv.x_map@[a],
                lv.y_map@[b + d] - lv.y_map@[b],
            ) ==> v.cost <= finer->Some_0.cell(
                lv.x_map@[a] as int,
                lv.y_map@[b] as int,
                lv.x_map@[a + c] - lv.x_map@[a],
                lv.y_map@[b + d] - lv.y_map@[b],
            ).cost
            &&& (lv.xs@[a + c] - lv.xs@[a]) * (lv.ys@[b + d] - lv.ys@[b]) < SMALL_AREA ==> forall|
                col: Color,
            |
                is_average_color(
                    col,
                    env.expected,
                    lv.xs@[a] as int,
                    lv.xs@[a + c] as int,
                    lv.ys@[b] as int,
                    lv.ys@[b + d] as int,
                ) ==> v.cost <= #[trigger] solid_score(env, *lv, a, b, c, d, col)
            &&& earlier_dearer(*lv, finer, a, b, c, d, v.cost, v.way)
            &&& before_ok(*lv, finer, a, b, c, d, v.before@)
            &&& solid_rule(env, *lv, a, b, c, d, v)
        }),
{
    let ghost env = env_of(expected@, test_case.test_id);
    let ghost finer = match fine {
        Some(f) => Some(*f),
        None => None,
    };
    let mut best = unset_cell();
    let ghost unset = best;
    match fine {
        Some(f) => {
            best = try_delegate(lv, f, Ghost(env), x_it, y_it, x_len, y_len, best);
        },
        None => {},
    }
    let ghost after_delegate = best;
    best = try_splits(lv, Ghost(env), Ghost(finer), x_it, y_it, x_len, y_len, best);
    let ghost after_splits = best;
    proof {
        assert forall|other: int| x_it < other < x_it + x_len implies after_splits.cost
            <= #[trigger] split_x_cost(
            *lv,
            x_it as int,
            y_it as int,
            x_len as int,
            y_len as int,
            other,
        ) by {
            assert(after_splits.cost <= lv.cell(
                x_it as int,
                y_it as int,
                other - x_it,
                y_len as int,
            ).cost + lv.cell(other, y_it as int, x_it + x_len - other, y_len as int).cost);
        }
        assert forall|other: int| y_it < other < y_it + y_len implies after_splits.cost
            <= #[trigger] split_y_cost(
            *lv,
            x_it as int,
            y_it as int,
            x_len as int,
            y_len as int,
            other,
        ) by {
            assert(after_splits.cost <= lv.cell(
                x_it as int,
                y_it as int,
                x_len as int,
                other - y_it,
            ).cost + lv.cell(x_it as int, other, x_len as int, y_it + y_len - other).cost);
        }
        assert(before_ok(
            *lv,
            finer,
            x_it as int,
            y_it as int,
            x_len as int,
            y_len as int,
            after_splits.cost,
        )) by {
            reveal(before_ok);
            match after_splits.way {
                BestWay::SplitX(mid) => {
                    assert(split_x_cost(
                        *lv,
                        x_it as int,
                        y_it as int,
                        x_len as int,
                        y_len as int,
                        mid as int,
                    ) == after_splits.cost);
                },
                BestWay::SplitY(mid) => {
                    assert(split_y_cost(
                        *lv,
                        x_it as int,
                        y_it as int,
                        x_len as int,
                        y_len as int,
                        mid as int,
                    ) == after_splits.cost);
                },
                _ => {},
            }
        }
    }
    best =
    try_solid(
        lv,
        expected,
        color_picker,
        test_case,
        rnd,
        Ghost(finer),
        x_it,
        y_it,
        x_len,
        y_len,
        best,
    );
    best
}

impl Solution {
    /// Every table is filled in with good and tight cells, for a canvas of
    /// sides up to `MAX_SIDE`.
    pub open spec fn wf(&self) -> bool {
        &&& 1 <= self.env@.n <= MAX_SIDE
        &&& 1 <= self.env@.m <= MAX_SIDE
        &&& solution_ok(self.env@, self.levels@)
        &&& solution_tight(self.env@, self.levels@)
    }

    /// A solution without tables, for the picture `expected` of the
    /// instance `test_case`.
    pub fn new(expected: &Vec<Vec<Color>>, test_case: &TestCase) -> (sol: Solution)
        requires
            1 <= expected@.len() <= MAX_SIDE,
            1 <= expected@[0]@.len() <= MAX_SIDE,
        ensures
            sol.wf(),
            sol.levels@.len() == 0,
            sol.env@ == env_of(expected@, test_case.test_id),
    {
        Solution { levels: Vec::new(), env: Ghost(env_of(expected@, test_case.test_id)) }
    }
}

/// The windows that are filled in before `(pa, pb, pc, pd)` have good and
/// tight cells.
pub open spec fn filled_before(
    env: Env,
    lv: Level,
    finer: Option<Level>,
    pa: int,
    pb: int,
    pc: int,
    pd: int,
) -> bool {
    forall|a: int, b: int, c: int, d: int|
        #![trigger lv.window(a, b, c, d)]
        lv.window(a, b, c, d) && done(a, b, c, d, pa, pb, pc, pd) ==> cell_ok(
            env,
            lv,
            finer,
            a,
            b,
            c,
            d,
        ) && cell_tight(env, lv, finer, a, b, c, d)
}

/// The last level of a list of levels, if the list holds one.
pub open spec fn last_level(levels: Seq<Level>) -> Option<Level> {
    if levels.len() > 0 {
        Some(levels.last())
    } else {
        None
    }
}

/// Fills in the table of the grid `xs` by `ys` for windows of up to
/// `max_next_x_blocks` by `max_next_y_blocks` intervals, and adds it to
/// `sol` as its last level.  The level that was last before serves as the
/// finer grid.
pub fn find_solution(
    expected: &Vec<Vec<Color>>,
    xs: &[usize],
    ys: &[usize],
    color_picker: &ColorPicker,
    max_next_x_blocks: usize,
    max_next_y_blocks: usize,
    sol: &mut Solution,
    rnd: &mut Random,
    test_case: &TestCase,
)
    requires
        1 <= expected@.len() <= MAX_SIDE,
        1 <= expected@[0]@.len() <= MAX_SIDE,
        is_grid(expected@, expected@.len() as int, expected@[0]@.len() as int),
        color_picker.wf(),
        color_picker.picture() == cells(expected@),
        color_picker.n() == expected@.len(),
        color_picker.m() == expected@[0]@.len(),
        coords_ok(xs@, expected@.len() as int),
        coords_ok(ys@, expected@[0]@.len() as int),
        max_next_x_blocks < usize::MAX,
        max_next_y_blocks < usize::MAX,
        old(sol).wf(),
        old(sol).env@ == env_of(expected@, test_case.test_id),
        old(sol).levels@.len() > 0 ==> refines(old(sol).levels@.last().xs@, xs@) && refines(
            old(sol).levels@.last().ys@,
            ys@,
        ),
    ensures
        final(sol).levels@.len() == old(sol).levels@.len() + 1,
        final(sol).levels@.drop_last() == old(sol).levels@,
        final(sol).levels@.last().xs@ == xs@,
        final(sol).levels@.last().ys@ == ys@,
        final(sol).levels@.last().max_next_x_blocks == max_next_x_blocks,
        final(sol).levels@.last().max_next_y_blocks == max_next_y_blocks,
        final(sol).wf(),
        final(sol).env@ == old(sol).env@,
        final(sol).levels@.last().unset_outside(),
{
    let ghost env = env_of(expected@, test_case.test_id);
    let ghost before_levels = sol.levels@;
    let ghost finer = last_level(before_levels);
    let count = sol.levels.len();
    let nx = xs.len() - 1;
    let ny = ys.len() - 1;
    let mx = max_next_x_blocks;
    let my = max_next_y_blocks;
    let fine: Option<&Level> = if count > 0 {
        Some(&sol.levels[count - 1])
    } else {
        None
    };
    proof {
        if count > 0 {
            assert(level_ok(env, before_levels[count - 1], finer_of(before_levels, count - 1)));
        }
    }
    let x_map = match fine {
        Some(f) => get_mapping(xs, f.xs.as_slice()),
        None => Vec::new(),
    };
    let y_map = match fine {
        Some(f) => get_mapping(ys, f.ys.as_slice()),
        None => Vec::new(),
    };
    let mut level = Level {
        table: new_table(nx, ny, mx, my),
        xs: copy_coords(xs),
        ys: copy_coords(ys),
        max_next_x_blocks: mx,
        max_next_y_blocks: my,
        x_map,
        y_map,
    };
    let mut x_next: usize = nx;
    while x_next > 0
        invariant
            x_next <= nx,
            nx == xs@.len() - 1,
            ny == ys@.len() - 1,
            mx == max_next_x_blocks,
            my == max_next_y_blocks,
            mx < usize::MAX,
            my < usize::MAX,
            1 <= expected@.len() <= MAX_SIDE,
            1 <= expected@[0]@.len() <= MAX_SIDE,
            is_grid(expected@, expected@.len() as int, expected@[0]@.len() as int),
            color_picker.wf(),
            color_picker.picture() == cells(expected@),
            color_picker.n() == expected@.len(),
            color_picker.m() == expected@[0]@.len(),
            env == env_of(expected@, test_case.test_id),
            level.xs@ == xs@,
            level.ys@ == ys@,
            level.max_next_x_blocks == mx,
            level.max_next_y_blocks == my,
            level.shape(env.n, env.m),
            level.unset_outside(),
            finer == (match fine {
                Some(f) => Some(*f),
                None => None,
            }),
            fine is Some ==> fine->Some_0.shape(env.n, env.m) && level.maps_ok(*fine->Some_0),
            filled_before(env, level, finer, x_next - 1, ny as int, 1, 1),
        decreases x_next,
    {
        let x_it = x_next - 1;
        let mut y_next: usize = ny;
        while y_next > 0
            invariant
                x_it < nx,
                y_next <= ny,
                nx == xs@.len() - 1,
                ny == ys@.len() - 1,
                mx == max_next_x_blocks,
                my == max_next_y_blocks,
                mx < usize::MAX,
                my < usize::MAX,
                1 <= expected@.len() <= MAX_SIDE,
                1 <= expected@[0]@.len() <= MAX_SIDE,
                is_grid(expected@, expected@.len() as int, expected@[0]@.len() as int),
                color_picker.wf(),
                color_picker.picture() == cells(expected@),
                color_picker.n() == expected@.len(),
                color_picker.m() == expected@[0]@.len(),
                env == env_of(expected@, test_case.test_id),
                level.xs@ == xs@,
                level.ys@ == ys@,
                level.max_next_x_blocks == mx,
                level.max_next_y_blocks == my,
                level.shape(env.n, env.m),
                level.unset_outside(),
                finer == (match fine {
                    Some(f) => Some(*f),
                    None => None,
                }),
                fine is Some ==> fine->Some_0.shape(env.n, env.m) && level.maps_ok(*fine->Some_0),
                filled_before(env, level, finer, x_it as int, y_next - 1, 1, 1),
            decreases y_next,
        {
            let y_it = y_next - 1;
            let mut x_len: usize = 1;
            while x_len <= mx && x_len <= nx - x_it
                invariant
                    x_it < nx,
                    y_it < ny,
                    1 <= x_len <= mx + 1,
                    nx == xs@.len() - 1,
                    ny == ys@.len() - 1,
                    mx == max_next_x_blocks,
                    my == max_next_y_blocks,
                    mx < usize::MAX,
                    my < usize::MAX,
                    1 <= expected@.len() <= MAX_SIDE,
                    1 <= expected@[0]@.len() <= MAX_SIDE,
                    is_grid(expected@, expected@.len() as int, expected@[0]@.len() as int),
                    color_picker.wf(),
                    color_picker.picture() == cells(expected@),
                    color_picker.n() == expected@.len(),
                    color_picker.m() == expected@[0]@.len(),
                    env == env_of(expected@, test_case.test_id),
                    level.xs@ == xs@,
                    level.ys@ == ys@,
                    level.max_next_x_blocks == mx,
                    level.max_next_y_blocks == my,
                    level.shape(env.n, env.m),
                    level.unset_outside(),
                    finer == (match fine {
                        Some(f) => Some(*f),
                        None => None,
                    }),
                    fine is Some ==> fine->Some_0.shape(env.n, env.m) && level.maps_ok(
                        *fine->Some_0,
                    ),
                    filled_before(env, level, finer, x_it as int, y_it as int, x_len as int, 1),
                decreases mx + 1 - x_len,
            {
                let mut y_len: usize = 1;
                while y_len <= my && y_len <= ny - y_it
                    invariant
                        x_it < nx,
                        y_it < ny,
                        1 <= x_len <= mx,
                        x_len <= nx - x_it,
                        1 <= y_len <= my + 1,
                        nx == xs@.len() - 1,
                        ny == ys@.len() - 1,
                        mx == max_next_x_blocks,
                        my == max_next_y_blocks,
                        mx < usize::MAX,
                        my < usize::MAX,
                        1 <= expected@.len() <= MAX_SIDE,
                        1 <= expected@[0]@.len() <= MAX_SIDE,
                        is_grid(expected@, expected@.len() as int, expected@[0]@.len() as int),
                        color_picker.wf(),
                        color_picker.picture() == cells(expected@),
                        color_picker.n() == expected@.len(),
                        color_picker.m() == expected@[0]@.len(),
                        env == env_of(expected@, test_case.test_id),
                        level.xs@ == xs@,
                        level.ys@ == ys@,
                        level.max_next_x_blocks == mx,
                        level.max_next_y_blocks == my,
                        level.shape(env.n, env.m),
                        level.unset_outside(),
                        finer == (match fine {
                            Some(f) => Some(*f),
                            None => None,
                        }),
                        fine is Some ==> fine->Some_0.shape(env.n, env.m) && level.maps_ok(
                            *fine->Some_0,
                        ),
                        filled_before(
                            env,
                            level,
                            finer,
                            x_it as int,
                            y_it as int,
                            x_len as int,
                            y_len as int,
                        ),
                    decreases my + 1 - y_len,
                {
                    let v = best_way(
                        &level,
                        fine,
                        expected,
                        color_picker,
                        test_case,
                        rnd,
                        x_it,
                        y_it,
                        x_len,
                        y_len,
                    );
                    let ghost before = level;
                    proof {
                        lemma_block_shape(before, x_it as int, y_it as int, env.n, env.m);
                    }
                    set_cell(&mut level.table, x_it, y_it, x_len, y_len, v);
                    proof {
                        assert(one_cell_set(
                            before,
                            level,
                            x_it as int,
                            y_it as int,
                            x_len as int,
                            y_len as int,
                            v,
                        )) by {
                            assert forall|i: int, j: int, k: int, l: int|
                                0 <= i < before.nx() && 0 <= j < before.ny() && 0 <= k
                                    <= before.max_next_x_blocks && 0 <= l
                                    <= before.max_next_y_blocks implies (#[trigger] level.cell(
                                i,
                                j,
                                k,
                                l,
                            )) == (if i == x_it && j == y_it && k == x_len && l == y_len {
                                v
                            } else {
                                before.cell(i, j, k, l)
                            }) by {
                                lemma_block_shape(before, i, j, env.n, env.m);
                                assert(cell_at(level.table@, i, j, k, l) == (if i == x_it && j
                                    == y_it && k == x_len && l == y_len {
                                    v
                                } else {
                                    cell_at(before.table@, i, j, k, l)
                                }));
                            }
                        }
                        lemma_unset_kept(
                            before,
                            level,
                            x_it as int,
                            y_it as int,
                            x_len as int,
                            y_len as int,
                            v,
                        );
                        assert(level.shape(env.n, env.m)) by {
                            assert forall|i: int| 0 <= i < nx implies (#[trigger] level.table@[i])@.len()
                                == ny by {
                                lemma_block_shape(before, i, 0, env.n, env.m);
                            }
                            assert forall|i: int, j: int| 0 <= i < nx && 0 <= j < ny implies (
                            #[trigger] level.table@[i]@[j])@.len() == mx + 1 by {
                                lemma_block_shape(before, i, j, env.n, env.m);
                            }
                            assert forall|i: int, j: int, k: int|
                                0 <= i < nx && 0 <= j < ny && 0 <= k <= mx implies (
                            #[trigger] level.table@[i]@[j]@[k])@.len() == my + 1 by {
                                lemma_block_shape(before, i, j, env.n, env.m);
                            }
                            assert forall|i: int, j: int, k: int, l: int|
                                0 <= i < nx && 0 <= j < ny && 0 <= k <= mx && 0 <= l
                                    <= my implies (#[trigger] cell_at(level.table@, i, j, k, l)).cost
                                <= FMAX by {
                                assert(level.cell(i, j, k, l) == (if i == x_it && j == y_it && k
                                    == x_len && l == y_len {
                                    v
                                } else {
                                    before.cell(i, j, k, l)
                                }));
                                assert(cell_at(before.table@, i, j, k, l).cost <= FMAX);
                            }
                        }
                        assert forall|a: int, b: int, c: int, d: int|
                            #![trigger level.window(a, b, c, d)]
                            level.window(a, b, c, d) && done(
                                a,
                                b,
                                c,
                                d,
                                x_it as int,
                                y_it as int,
                                x_len as int,
                                y_len + 1,
                            ) implies cell_ok(env, level, finer, a, b, c, d) && cell_tight(
                            env,
                            level,
                            finer,
                            a,
                            b,
                            c,
                            d,
                        ) by {
                            assert(before.window(a, b, c, d));
                            if a == x_it && b == y_it && c == x_len && d == y_len {
                                lemma_cell_written(env, before, level, finer, a, b, c, d, v);
                            } else {
                                lemma_cell_frame(
                                    env,
                                    before,
                                    level,
                                    finer,
                                    x_it as int,
                                    y_it as int,
                                    x_len as int,
                                    y_len as int,
                                    v,
                                    a,
                                    b,
                                    c,
                                    d,
                                );
                            }
                        }
                    }
                    y_len = y_len + 1;
                }
                proof {
                    assert forall|a: int, b: int, c: int, d: int|
                        #![trigger level.window(a, b, c, d)]
                        level.window(a, b, c, d) && done(
                            a,
                            b,
                            c,
                            d,
                            x_it as int,
                            y_it as int,
                            x_len + 1,
                            1,
                        ) implies cell_ok(env, level, finer, a, b, c, d) && cell_tight(
                        env,
                        level,
                        finer,
                        a,
                        b,
                        c,
                        d,
                    ) by {
                        assert(done(a, b, c, d, x_it as int, y_it as int, x_len as int, y_len as int));
                    }
                }
                x_len = x_len + 1;
            }
            proof {
                assert forall|a: int, b: int, c: int, d: int|
                    #![trigger level.window(a, b, c, d)]
                    level.window(a, b, c, d) && done(a, b, c, d, x_it as int, y_it - 1, 1, 1) implies cell_ok(
                    env,
                    level,
                    finer,
                    a,
                    b,
                    c,
                    d,
                ) && cell_tight(env, level, finer, a, b, c, d) by {
                    assert(done(a, b, c, d, x_it as int, y_it as int, x_len as int, 1));
                }
            }
            y_next = y_it;
        }
        proof {
            assert forall|a: int, b: int, c: int, d: int|
                #![trigger level.window(a, b, c, d)]
                level.window(a, b, c, d) && done(a, b, c, d, x_it - 1, ny as int, 1, 1) implies cell_ok(
                env,
                level,
                finer,
                a,
                b,
                c,
                d,
            ) && cell_tight(env, level, finer, a, b, c, d) by {
                assert(done(a, b, c, d, x_it as int, -1, 1, 1));
            }
        }
        x_next = x_it;
    }
    proof {
        assert forall|a: int, b: int, c: int, d: int| #[trigger]
            level.window(a, b, c, d) implies cell_ok(env, level, finer, a, b, c, d) && cell_tight(
            env,
            level,
            finer,
            a,
            b,
            c,
            d,
        ) by {
            assert(done(a, b, c, d, -1, ny as int, 1, 1));
        }
    }
    sol.levels.push(level);
    proof {
        let after = sol.levels@;
        assert(after.drop_last() =~= before_levels);
        assert forall|k: int| 0 <= k < after.len() implies level_ok(
            env,
            #[trigger] after[k],
            finer_of(after, k),
        ) && level_tight(env, after[k], finer_of(after, k)) by {
            if k < count {
                assert(after[k] == before_levels[k]);
                assert(finer_of(after, k) == finer_of(before_levels, k));
                assert(level_ok(env, before_levels[k], finer_of(before_levels, k)));
                assert(level_tight(env, before_levels[k], finer_of(before_levels, k)));
            } else {
                assert(finer_of(after, k) == finer);
            }
        }
    }
}

} // verus!
