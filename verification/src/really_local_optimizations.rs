//! Exchanging two stripes of a canvas: where a pixel goes, what becomes of
//! a picture, and which exchange makes the corners of a stack cheapest.

use crate::color::Color;
use crate::color_corner::{color_corner, corner_cost, MAX_CORNER_COST};
use crate::consts::MAX_SIDE;
use crate::op::{ops_view, Op, OpView};
use crate::picture::copy_picture;
use crate::rect_id::{rect_id_sub_key, sub_key, RectId};
use crate::solution::{anchors_inside, SolutionRect};
use crate::test_case::{is_grid, TestCase};
use crate::utils::{p, point_inside, Point};
use vstd::prelude::*;

verus! {

/// An exchange of two stripes of `cnt_lines` columns, if `by_x` is set, or
/// rows, that start at `first_line` and at `second_line`.
#[derive(Clone, Copy, Debug)]
pub struct StripeSwap {
    pub cnt_lines: usize,
    pub first_line: usize,
    pub second_line: usize,
    pub by_x: bool,
}

/// The kind of the line `v` for stripes of `cnt` lines from `first` and
/// from `second`: 0 before the first stripe, 1 in it, 2 between the
/// stripes, 3 in the second stripe, 4 after it.
pub open spec fn line_type(first: int, second: int, cnt: int, v: int) -> int {
    if v < first {
        0
    } else if v < first + cnt {
        1
    } else if v < second {
        2
    } else if v < second + cnt {
        3
    } else {
        4
    }
}

/// Where the line `v` goes when the stripes of `cnt` lines from `first` and
/// from `second` are exchanged.
pub open spec fn line_moved(first: int, second: int, cnt: int, v: int) -> int {
    if first <= v < first + cnt {
        second + v - first
    } else if second <= v < second + cnt {
        first + v - second
    } else {
        v
    }
}

impl StripeSwap {
    /// The stripes lie apart, the first before the second, on a canvas of
    /// `n` lines across them.
    pub open spec fn fits(&self, n: int) -> bool {
        self.first_line + self.cnt_lines <= self.second_line && self.second_line + self.cnt_lines
            <= n
    }

    /// Where the pixel `(x, y)` goes.
    pub open spec fn moved(&self, x: int, y: int) -> (int, int) {
        if self.by_x {
            (
                line_moved(
                    self.first_line as int,
                    self.second_line as int,
                    self.cnt_lines as int,
                    x,
                ),
                y,
            )
        } else {
            (
                x,
                line_moved(
                    self.first_line as int,
                    self.second_line as int,
                    self.cnt_lines as int,
                    y,
                ),
            )
        }
    }

    /// The exchange as it is seen after a canvas of `n` columns was turned
    /// a quarter clockwise: stripes of columns become stripes of rows,
    /// counted from the other side, and stripes of rows become stripes of
    /// columns.
    pub open spec fn turned(&self, n: int) -> StripeSwap {
        if self.by_x {
            StripeSwap {
                first_line: (n - (self.second_line + self.cnt_lines)) as usize,
                second_line: (n - (self.first_line + self.cnt_lines)) as usize,
                cnt_lines: self.cnt_lines,
                by_x: false,
            }
        } else {
            StripeSwap {
                first_line: self.first_line,
                second_line: self.second_line,
                cnt_lines: self.cnt_lines,
                by_x: true,
            }
        }
    }

    /// The exchange as it is seen after the canvas of `test_case` was turned
    /// a quarter clockwise.
    pub fn rotate_cw(&self, test_case: &TestCase) -> (r: StripeSwap)
        requires
            test_case.expected@.len() >= 1,
            self.by_x ==> self.first_line + self.cnt_lines <= test_case.n() && self.second_line
                + self.cnt_lines <= test_case.n(),
        ensures
            r == self.turned(test_case.n()),
    {
        let n = test_case.get_size().0;
        if self.by_x {
            StripeSwap {
                first_line: n - (self.second_line + self.cnt_lines),
                second_line: n - (self.first_line + self.cnt_lines),
                cnt_lines: self.cnt_lines,
                by_x: false,
            }
        } else {
            StripeSwap {
                first_line: self.first_line,
                second_line: self.second_line,
                cnt_lines: self.cnt_lines,
                by_x: true,
            }
        }
    }

    /// The kind of the pixel `(x, y)`: 0 before the first stripe, 1 in it, 2
    /// between the stripes, 3 in the second stripe, 4 after it.
    pub fn get_pt_type(&self, x: usize, y: usize) -> (r: usize)
        requires
            self.first_line + self.cnt_lines <= usize::MAX,
            self.second_line + self.cnt_lines <= usize::MAX,
        ensures
            r == line_type(
                self.first_line as int,
                self.second_line as int,
                self.cnt_lines as int,
                if self.by_x {
                    x as int
                } else {
                    y as int
                },
            ),
    {
        let v = if self.by_x {
            x
        } else {
            y
        };
        if v < self.first_line {
            return 0;
        }
        if v >= self.first_line && v < self.first_line + self.cnt_lines {
            return 1;
        }
        if v < self.second_line {
            return 2;
        }
        if v >= self.second_line && v < self.second_line + self.cnt_lines {
            return 3;
        }
        4
    }

    /// Where the pixel `(x, y)` goes.
    pub fn apply_point(&self, x: usize, y: usize) -> (r: (usize, usize))
        requires
            self.first_line + self.cnt_lines <= usize::MAX,
            self.second_line + self.cnt_lines <= usize::MAX,
        ensures
            r.0 == self.moved(x as int, y as int).0,
            r.1 == self.moved(x as int, y as int).1,
    {
        if self.by_x {
            if x >= self.first_line && x < self.first_line + self.cnt_lines {
                return (self.second_line + (x - self.first_line), y);
            }
            if x >= self.second_line && x < self.second_line + self.cnt_lines {
                return (self.first_line + (x - self.second_line), y);
            }
            (x, y)
        } else {
            if y >= self.first_line && y < self.first_line + self.cnt_lines {
                return (x, self.second_line + (y - self.first_line));
            }
            if y >= self.second_line && y < self.second_line + self.cnt_lines {
                return (x, self.first_line + (y - self.second_line));
            }
            (x, y)
        }
    }

    /// Where the point `cur_p` goes.
    pub fn apply_point_for_real(&self, cur_p: Point) -> (r: Point)
        requires
            cur_p.x >= 0,
            cur_p.y >= 0,
            self.first_line + self.cnt_lines <= i32::MAX,
            self.second_line + self.cnt_lines <= i32::MAX,
        ensures
            r.x == self.moved(cur_p.x as int, cur_p.y as int).0,
            r.y == self.moved(cur_p.x as int, cur_p.y as int).1,
    {
        let (x, y) = self.apply_point(cur_p.x as usize, cur_p.y as usize);
        p(x, y)
    }

    /// The picture `a` with the two stripes exchanged: every pixel shows in
    /// the place where it goes.
    pub fn apply_field(&self, a: &Vec<Vec<Color>>) -> (res: Vec<Vec<Color>>)
        requires
            a@.len() >= 1,
            is_grid(a@, a@.len() as int, a@[0]@.len() as int),
            self.fits(
                if self.by_x {
                    a@.len() as int
                } else {
                    a@[0]@.len() as int
                },
            ),
        ensures
            is_grid(res@, a@.len() as int, a@[0]@.len() as int),
            forall|i: int, j: int|
                0 <= i < a@.len() && 0 <= j < a@[0]@.len() ==> res@[self.moved(
                    i,
                    j,
                ).0]@[self.moved(i, j).1] == #[trigger] a@[i]@[j],
    {
        let n = a.len();
        let m = a[0].len();
        let mut res = copy_picture(a);
        assert(is_grid(res@, n as int, m as int));
        let mut i: usize = 0;
        while i < n
            invariant
                i <= n,
                n == a@.len(),
                m == a@[0]@.len(),
                is_grid(a@, n as int, m as int),
                is_grid(res@, n as int, m as int),
                self.fits(
                    if self.by_x {
                        n as int
                    } else {
                        m as int
                    },
                ),
                forall|u: int, v: int|
                    0 <= u < i && 0 <= v < m ==> res@[self.moved(u, v).0]@[self.moved(u, v).1]
                        == #[trigger] a@[u]@[v],
            decreases n - i,
        {
            let mut j: usize = 0;
            while j < m
                invariant
                    i < n,
                    j <= m,
                    n == a@.len(),
                    m == a@[0]@.len(),
                    is_grid(a@, n as int, m as int),
                    is_grid(res@, n as int, m as int),
                    self.fits(
                        if self.by_x {
                            n as int
                        } else {
                            m as int
                        },
                    ),
                    forall|u: int, v: int|
                        0 <= u < n && 0 <= v < m && (u < i || (u == i && v < j)) ==> res@[self.moved(
                            u,
                            v,
                        ).0]@[self.moved(u, v).1] == #[trigger] a@[u]@[v],
                decreases m - j,
            {
                let (i2, j2) = self.apply_point(i, j);
                assert(a@[i as int].len() == m);
                assert(res@[i2 as int].len() == m);
                let ghost prev = res@;
                let c = a[i][j];
                res[i2][j2] = c;
                proof {
                    assert forall|u: int| 0 <= u < n implies (#[trigger] res@[u]).len() == m by {
                        assert(prev[u].len() == m);
                    }
                    assert forall|u: int, v: int|
                        0 <= u < n && 0 <= v < m && (u < i || (u == i && v < j + 1)) implies res@[self.moved(
                        u,
                        v,
                    ).0]@[self.moved(u, v).1] == #[trigger] a@[u]@[v] by {
                        let (u2, v2) = self.moved(u, v);
                        assert(prev[u2].len() == m);
                        if u == i && v == j {
                        } else {
                            assert(prev[u2]@[v2] == a@[u]@[v]);
                            assert(u2 != i2 || v2 != j2);
                        }
                    }
                }
                j = j + 1;
            }
            i = i + 1;
        }
        res
    }
}

/// The score of the stack `rects` on the canvas of `test_case`, given what
/// merging the seed regions costs.
pub fn score_by_rects2(rects: &[SolutionRect], test_case: &TestCase, merge_cost: u128) -> (res: u128)
    requires
        test_case.wf(),
        anchors_inside(rects@, test_case.n(), test_case.m()),
        merge_cost <= crate::consts::MAX_MERGE_COST,
    ensures
        res == crate::local_optimizations::total_score(*test_case, rects@, merge_cost),
{
    crate::local_optimizations::score_by_rects(rects, test_case, merge_cost)
}

/// What it costs to fill the corner at every pixel of the canvas of
/// `test_case`.
pub fn corner_costs(test_case: &TestCase) -> (table: Vec<Vec<u128>>)
    requires
        test_case.wf(),
    ensures
        is_grid(table@, test_case.n(), test_case.m()),
        forall|x: int, y: int|
            0 <= x < test_case.n() && 0 <= y < test_case.m() ==> (#[trigger] table@[x]@[y])
                == corner_cost(
                test_case.n(),
                test_case.m(),
                Point { x: x as i32, y: y as i32 },
                test_case.test_id,
            ),
{
    let (n, m) = test_case.get_size();
    let mut table: Vec<Vec<u128>> = Vec::new();
    let mut x: usize = 0;
    while x < n
        invariant
            x <= n,
            test_case.wf(),
            n == test_case.n(),
            m == test_case.m(),
            table@.len() == x,
            forall|i: int| 0 <= i < x ==> (#[trigger] table@[i])@.len() == m,
            forall|i: int, j: int|
                0 <= i < x && 0 <= j < m ==> (#[trigger] table@[i]@[j]) == corner_cost(
                    n as int,
                    m as int,
                    Point { x: i as i32, y: j as i32 },
                    test_case.test_id,
                ),
        decreases n - x,
    {
        let mut col: Vec<u128> = Vec::new();
        let mut y: usize = 0;
        while y < m
            invariant
                x < n,
                y <= m,
                test_case.wf(),
                n == test_case.n(),
                m == test_case.m(),
                col@.len() == y,
                forall|j: int|
                    0 <= j < y ==> (#[trigger] col@[j]) == corner_cost(
                        n as int,
                        m as int,
                        Point { x: x as i32, y: j as i32 },
                        test_case.test_id,
                    ),
            decreases m - y,
        {
            let at = p(x, y);
            assert(at == Point { x: x as i32, y: y as i32 });
            let c = color_corner(n, m, at, 0, Color([0, 0, 0, 0]), test_case).cost;
            col.push(c);
            y = y + 1;
        }
        table.push(col);
        x = x + 1;
    }
    table
}

/// What it costs to fill the corners of the stack `rects` after the
/// exchange `s`: the sum over the rectangles of the cost of the corner at
/// the pixel where the anchor goes.
pub open spec fn stripe_cost(rects: Seq<SolutionRect>, s: StripeSwap, n: int, m: int, test_id: usize)
    -> nat
    decreases rects.len(),
{
    if rects.len() == 0 {
        0
    } else {
        stripe_cost(rects.drop_last(), s, n, m, test_id) + corner_cost(
            n,
            m,
            Point {
                x: s.moved(rects.last().from.x as int, rects.last().from.y as int).0 as i32,
                y: s.moved(rects.last().from.x as int, rects.last().from.y as int).1 as i32,
            },
            test_id,
        )
    }
}

/// The exchange moves no line: it has no stripes.
pub open spec fn is_idle(s: StripeSwap) -> bool {
    s.cnt_lines == 0 && s.first_line == 0 && s.second_line == 0 && s.by_x
}

/// The exchange is one that the search tries on a canvas of `n` columns
/// and `m` rows: two stripes of at least one line that lie apart on the
/// canvas.
pub open spec fn is_candidate(s: StripeSwap, n: int, m: int) -> bool {
    s.cnt_lines >= 1 && s.fits(
        if s.by_x {
            n
        } else {
            m
        },
    )
}

/// Sums the costs of the corners of the stack after the exchange `s`.
fn cost_after(rects: &[SolutionRect], s: &StripeSwap, table: &Vec<Vec<u128>>, test_case: &TestCase)
    -> (cost: u128)
    requires
        test_case.wf(),
        anchors_inside(rects@, test_case.n(), test_case.m()),
        is_grid(table@, test_case.n(), test_case.m()),
        forall|x: int, y: int|
            0 <= x < test_case.n() && 0 <= y < test_case.m() ==> (#[trigger] table@[x]@[y])
                == corner_cost(
                test_case.n(),
                test_case.m(),
                Point { x: x as i32, y: y as i32 },
                test_case.test_id,
            ),
        is_idle(*s) || is_candidate(*s, test_case.n(), test_case.m()),
    ensures
        cost == stripe_cost(rects@, *s, test_case.n(), test_case.m(), test_case.test_id),
        cost <= rects@.len() * MAX_CORNER_COST,
{
    let ghost n = test_case.n();
    let ghost m = test_case.m();
    let mut cost: u128 = 0;
    let mut i: usize = 0;
    assert(rects@.take(0) =~= Seq::<SolutionRect>::empty());
    while i < rects.len()
        invariant
            i <= rects@.len(),
            test_case.wf(),
            n == test_case.n(),
            m == test_case.m(),
            anchors_inside(rects@, n, m),
            is_grid(table@, n, m),
            forall|x: int, y: int|
                0 <= x < n && 0 <= y < m ==> (#[trigger] table@[x]@[y]) == corner_cost(
                    n,
                    m,
                    Point { x: x as i32, y: y as i32 },
                    test_case.test_id,
                ),
            is_idle(*s) || is_candidate(*s, n, m),
            cost == stripe_cost(rects@.take(i as int), *s, n, m, test_case.test_id),
            cost <= i * MAX_CORNER_COST,
        decreases rects@.len() - i,
    {
        let r = rects[i];
        proof {
            assert(rects@.take(i + 1).drop_last() =~= rects@.take(i as int));
            assert(point_inside(rects@[i as int].from, n, m));
            assert((i + 1) * MAX_CORNER_COST == i * MAX_CORNER_COST + MAX_CORNER_COST)
                by (nonlinear_arith);
            assert(i * MAX_CORNER_COST + MAX_CORNER_COST <= 0x1_0000_0000_0000_0000
                * 34_358_689_810) by (nonlinear_arith)
                requires
                    i < 0x1_0000_0000_0000_0000,
                    MAX_CORNER_COST == 34_358_689_810,
            ;
        }
        let (x, y) = s.apply_point(r.from.x as usize, r.from.y as usize);
        assert(table@[x as int].len() == m);
        let c = table[x][y];
        proof {
            crate::color_corner::lemma_corner_cost_bound(
                n,
                m,
                Point { x: x as i32, y: y as i32 },
                test_case.test_id,
            );
        }
        cost = cost + c;
        i = i + 1;
    }
    assert(rects@.take(i as int) =~= rects@);
    cost
}

/// The exchange `(cnt, first, second)` comes before `(pc, pf, ps)` in the
/// search.
pub open spec fn tried(cnt: int, first: int, second: int, pc: int, pf: int, ps: int) -> bool {
    cnt < pc || (cnt == pc && first < pf) || (cnt == pc && first == pf && second < ps)
}

/// The exchange `best` is one of rows, or of columns if `by_x` is set, and
/// every such exchange that the search tries before it makes the corners of
/// the stack cost more than `cost`.
pub open spec fn is_first(
    tc: TestCase,
    rects: Seq<SolutionRect>,
    best: StripeSwap,
    cost: u128,
    by_x: bool,
) -> bool {
    &&& best.by_x == by_x
    &&& is_candidate(best, tc.n(), tc.m())
    &&& forall|s: StripeSwap|
        is_candidate(s, tc.n(), tc.m()) && s.by_x == by_x && tried(
            s.cnt_lines as int,
            s.first_line as int,
            s.second_line as int,
            best.cnt_lines as int,
            best.first_line as int,
            best.second_line as int,
        ) ==> #[trigger] stripe_cost(rects, s, tc.n(), tc.m(), tc.test_id) > cost
}

/// Searches the exchanges of two stripes of rows, or of columns if `by_x`
/// is set, for one that makes the corners of the stack cheaper than `best`
/// does; of several equally cheap ones it keeps the first.
fn search_stripes(
    rects: &[SolutionRect],
    table: &Vec<Vec<u128>>,
    test_case: &TestCase,
    by_x: bool,
    best: StripeSwap,
    best_cost: u128,
) -> (res: (StripeSwap, u128))
    requires
        test_case.wf(),
        anchors_inside(rects@, test_case.n(), test_case.m()),
        is_grid(table@, test_case.n(), test_case.m()),
        forall|x: int, y: int|
            0 <= x < test_case.n() && 0 <= y < test_case.m() ==> (#[trigger] table@[x]@[y])
                == corner_cost(
                test_case.n(),
                test_case.m(),
                Point { x: x as i32, y: y as i32 },
                test_case.test_id,
            ),
        is_idle(best) || is_candidate(best, test_case.n(), test_case.m()),
        best_cost == stripe_cost(rects@, best, test_case.n(), test_case.m(), test_case.test_id),
    ensures
        is_idle(res.0) || is_candidate(res.0, test_case.n(), test_case.m()),
        res.1 == stripe_cost(rects@, res.0, test_case.n(), test_case.m(), test_case.test_id),
        res.1 <= best_cost,
        forall|s: StripeSwap|
            is_candidate(s, test_case.n(), test_case.m()) && s.by_x == by_x ==> res.1
                <= #[trigger] stripe_cost(
                rects@,
                s,
                test_case.n(),
                test_case.m(),
                test_case.test_id,
            ),
        res.0 == best || (res.1 < best_cost && is_first(*test_case, rects@, res.0, res.1, by_x)),
{
    let (n, m) = test_case.get_size();
    let limit = if by_x {
        n
    } else {
        m
    };
    let ghost start_best = best;
    let mut best = best;
    let mut best_cost = best_cost;
    let ghost start_cost = best_cost;
    let mut cnt_lines: usize = 1;
    while cnt_lines < limit
        invariant
            1 <= cnt_lines,
            limit == (if by_x {
                n
            } else {
                m
            }),
            limit <= MAX_SIDE,
            test_case.wf(),
            n == test_case.n(),
            m == test_case.m(),
            anchors_inside(rects@, n as int, m as int),
            is_grid(table@, n as int, m as int),
            forall|x: int, y: int|
                0 <= x < n && 0 <= y < m ==> (#[trigger] table@[x]@[y]) == corner_cost(
                    n as int,
                    m as int,
                    Point { x: x as i32, y: y as i32 },
                    test_case.test_id,
                ),
            is_idle(best) || is_candidate(best, n as int, m as int),
            best_cost == stripe_cost(rects@, best, n as int, m as int, test_case.test_id),
            best_cost <= start_cost,
            best == start_best || (best_cost < start_cost && is_first(
                *test_case,
                rects@,
                best,
                best_cost,
                by_x,
            )),
            forall|s: StripeSwap|
                is_candidate(s, n as int, m as int) && s.by_x == by_x && tried(
                    s.cnt_lines as int,
                    s.first_line as int,
                    s.second_line as int,
                    cnt_lines as int,
                    0,
                    0,
                ) ==> best_cost <= #[trigger] stripe_cost(
                    rects@,
                    s,
                    n as int,
                    m as int,
                    test_case.test_id,
                ),
        decreases limit - cnt_lines,
    {
        let mut first_line: usize = 0;
        while first_line < limit
            invariant
                1 <= cnt_lines < limit,
                first_line <= limit,
                limit == (if by_x {
                    n
                } else {
                    m
                }),
                limit <= MAX_SIDE,
                test_case.wf(),
                n == test_case.n(),
                m == test_case.m(),
                anchors_inside(rects@, n as int, m as int),
                is_grid(table@, n as int, m as int),
                forall|x: int, y: int|
                    0 <= x < n && 0 <= y < m ==> (#[trigger] table@[x]@[y]) == corner_cost(
                        n as int,
                        m as int,
                        Point { x: x as i32, y: y as i32 },
                        test_case.test_id,
                    ),
                is_idle(best) || is_candidate(best, n as int, m as int),
                best_cost == stripe_cost(rects@, best, n as int, m as int, test_case.test_id),
                best_cost <= start_cost,
                best == start_best || (best_cost < start_cost && is_first(
                    *test_case,
                    rects@,
                    best,
                    best_cost,
                    by_x,
                )),
                forall|s: StripeSwap|
                    is_candidate(s, n as int, m as int) && s.by_x == by_x && tried(
                        s.cnt_lines as int,
                        s.first_line as int,
                        s.second_line as int,
                        cnt_lines as int,
                        first_line as int,
                        0,
                    ) ==> best_cost <= #[trigger] stripe_cost(
                        rects@,
                        s,
                        n as int,
                        m as int,
                        test_case.test_id,
                    ),
            decreases limit - first_line,
        {
            let mut second_line: usize = first_line + cnt_lines;
            while second_line < limit
                invariant
                    1 <= cnt_lines < limit,
                    first_line < limit,
                    first_line + cnt_lines <= second_line,
                    limit == (if by_x {
                        n
                    } else {
                        m
                    }),
                    limit <= MAX_SIDE,
                    test_case.wf(),
                    n == test_case.n(),
                    m == test_case.m(),
                    anchors_inside(rects@, n as int, m as int),
                    is_grid(table@, n as int, m as int),
                    forall|x: int, y: int|
                        0 <= x < n && 0 <= y < m ==> (#[trigger] table@[x]@[y]) == corner_cost(
                            n as int,
                            m as int,
                            Point { x: x as i32, y: y as i32 },
                            test_case.test_id,
                        ),
                    is_idle(best) || is_candidate(best, n as int, m as int),
                    best_cost == stripe_cost(rects@, best, n as int, m as int, test_case.test_id),
                    best_cost <= start_cost,
                    best == start_best || (best_cost < start_cost && is_first(
                        *test_case,
                        rects@,
                        best,
                        best_cost,
                        by_x,
                    )),
                    forall|s: StripeSwap|
                        is_candidate(s, n as int, m as int) && s.by_x == by_x && tried(
                            s.cnt_lines as int,
                            s.first_line as int,
                            s.second_line as int,
                            cnt_lines as int,
                            first_line as int,
                            second_line as int,
                        ) ==> best_cost <= #[trigger] stripe_cost(
                            rects@,
                            s,
                            n as int,
                            m as int,
                            test_case.test_id,
                        ),
                decreases limit - second_line,
            {
                if second_line + cnt_lines <= limit {
                    let s = StripeSwap { cnt_lines, first_line, second_line, by_x };
                    let new_cost = cost_after(rects, &s, table, test_case);
                    if new_cost < best_cost {
                        best_cost = new_cost;
                        best = s;
                    }
                }
                second_line = second_line + 1;
            }
            first_line = first_line + 1;
        }
        cnt_lines = cnt_lines + 1;
    }
    (best, best_cost)
}

/// `best` is the exchange of two stripes that makes the corners of the
/// stack `rects` cheapest, or the exchange without stripes if none makes
/// them cheaper, and `cost` is what the corners cost after it.  Of several
/// exchanges that are equally cheap `best` is the first: exchanges of rows
/// come before exchanges of columns, and among those the ones of fewer
/// lines, of an earlier first stripe, and of an earlier second stripe.
pub open spec fn is_best_stripe(tc: TestCase, rects: Seq<SolutionRect>, best: StripeSwap, cost: u128)
    -> bool {
    &&& is_idle(best) || is_candidate(best, tc.n(), tc.m())
    &&& cost == stripe_cost(rects, best, tc.n(), tc.m(), tc.test_id)
    &&& forall|s: StripeSwap|
        is_candidate(s, tc.n(), tc.m()) || is_idle(s) ==> cost <= #[trigger] stripe_cost(
            rects,
            s,
            tc.n(),
            tc.m(),
            tc.test_id,
        )
    &&& is_idle(best) || (is_first(tc, rects, best, cost, best.by_x) && cost < stripe_cost(
        rects,
        StripeSwap { cnt_lines: 0, first_line: 0, second_line: 0, by_x: true },
        tc.n(),
        tc.m(),
        tc.test_id,
    ) && (best.by_x ==> forall|s: StripeSwap|
        is_candidate(s, tc.n(), tc.m()) && !s.by_x ==> cost < #[trigger] stripe_cost(
            rects,
            s,
            tc.n(),
            tc.m(),
            tc.test_id,
        )))
}

/// The exchange of two stripes that makes the corners of the stack
/// cheapest, or the exchange without stripes if none makes them cheaper;
/// and what the corners cost after it.
pub fn find_best_stripe(rects: &[SolutionRect], test_case: &TestCase) -> (res: (StripeSwap, u128))
    requires
        test_case.wf(),
        anchors_inside(rects@, test_case.n(), test_case.m()),
    ensures
        is_best_stripe(*test_case, rects@, res.0, res.1),
{
    let table = corner_costs(test_case);
    let idle = StripeSwap { cnt_lines: 0, first_line: 0, second_line: 0, by_x: true };
    let sum_ops = cost_after(rects, &idle, &table, test_case);
    let (by_rows, rows_cost) = search_stripes(rects, &table, test_case, false, idle, sum_ops);
    let (best, best_cost) = search_stripes(rects, &table, test_case, true, by_rows, rows_cost);
    proof {
        assert forall|s: StripeSwap|
            is_candidate(s, test_case.n(), test_case.m()) || is_idle(s) implies best_cost
            <= #[trigger] stripe_cost(
            rects@,
            s,
            test_case.n(),
            test_case.m(),
            test_case.test_id,
        ) by {
            if is_idle(s) {
                assert(s == idle);
            }
        }
    }
    (best, best_cost)
}

/// The cut of the region named `id` at the line `v`, across `x` if `by_x`
/// is set.
pub open spec fn line_cut(id: Seq<u8>, v: int, by_x: bool) -> OpView {
    if by_x {
        OpView::CutX(id, v as i32)
    } else {
        OpView::CutY(id, v as i32)
    }
}

/// The operations that exchange the stripes of `s` on a canvas of `limit`
/// lines across the stripes that is one region named `id`: cuts that set
/// the two stripes free, each of what is left after the cut before it, and
/// the swap of the two stripes.  A cut at the edge of the canvas is left
/// out, and so is the cut between stripes that touch.
pub open spec fn stripe_ops(s: StripeSwap, id: Seq<u8>, limit: int) -> Seq<OpView> {
    let first = s.first_line as int;
    let second = s.second_line as int;
    let cnt = s.cnt_lines as int;
    let a0 = id;
    let ops0 = Seq::<OpView>::empty();
    // the part from the first stripe on
    let a1 = if first > 0 {
        sub_key(a0, 1)
    } else {
        a0
    };
    let ops1 = if first > 0 {
        ops0.push(line_cut(a0, first, s.by_x))
    } else {
        ops0
    };
    let stripe1 = sub_key(a1, 0);
    let a2 = sub_key(a1, 1);
    let ops2 = ops1.push(line_cut(a1, first + cnt, s.by_x));
    // the part from the second stripe on
    let a3 = if second > first + cnt {
        sub_key(a2, 1)
    } else {
        a2
    };
    let ops3 = if second > first + cnt {
        ops2.push(line_cut(a2, second, s.by_x))
    } else {
        ops2
    };
    let stripe2 = if second + cnt < limit {
        sub_key(a3, 0)
    } else {
        a3
    };
    let ops4 = if second + cnt < limit {
        ops3.push(line_cut(a3, second + cnt, s.by_x))
    } else {
        ops3
    };
    ops4.push(OpView::Swap(stripe1, stripe2))
}

/// One cut of a canvas across its stripes.
fn cut_at(id: &RectId, v: usize, by_x: bool) -> (op: Op)
    requires
        v <= MAX_SIDE,
    ensures
        op@ == line_cut(id@, v as int, by_x),
{
    if by_x {
        Op::CutX(id.clone(), v as i32)
    } else {
        Op::CutY(id.clone(), v as i32)
    }
}

/// The operations that exchange the stripes of `stripe` on the canvas of
/// `test_case`, which is one region named `id`.
pub fn stripe_swap_ops(stripe: &StripeSwap, id: &RectId, test_case: &TestCase) -> (ops: Vec<Op>)
    requires
        test_case.wf(),
        is_candidate(*stripe, test_case.n(), test_case.m()),
    ensures
        ops_view(ops@) == stripe_ops(
            *stripe,
            id@,
            if stripe.by_x {
                test_case.n()
            } else {
                test_case.m()
            },
        ),
{
    let (n, m) = test_case.get_size();
    let limit = if stripe.by_x {
        n
    } else {
        m
    };
    let first = stripe.first_line;
    let second = stripe.second_line;
    let cnt = stripe.cnt_lines;
    let mut ops: Vec<Op> = Vec::new();
    let mut rest = id.clone();
    if first > 0 {
        ops.push(cut_at(&rest, first, stripe.by_x));
        rest = rect_id_sub_key(&rest, 1);
    }
    ops.push(cut_at(&rest, first + cnt, stripe.by_x));
    let stripe1 = rect_id_sub_key(&rest, 0);
    rest = rect_id_sub_key(&rest, 1);
    if second > first + cnt {
        ops.push(cut_at(&rest, second, stripe.by_x));
        rest = rect_id_sub_key(&rest, 1);
    }
    let stripe2 = if second + cnt < limit {
        ops.push(cut_at(&rest, second + cnt, stripe.by_x));
        rect_id_sub_key(&rest, 0)
    } else {
        rest
    };
    ops.push(Op::Swap(stripe1, stripe2));
    assert(ops_view(ops@) =~= stripe_ops(*stripe, id@, limit as int));
    ops
}

} // verus!
