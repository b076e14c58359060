//! Pictures: grids of colours indexed by column, then by row.

use crate::color::{lemma_color_eq, Color};
use crate::test_case::{is_grid, Rect};
use vstd::prelude::*;

verus! {

/// The colours of a grid, column by column.
pub open spec fn cells(a: Seq<Vec<Color>>) -> Seq<Seq<Color>> {
    Seq::new(a.len(), |x: int| a[x]@)
}

/// `p` holds `n` columns of `m` colours each.
pub open spec fn is_picture(p: Seq<Seq<Color>>, n: int, m: int) -> bool {
    p.len() == n && forall|x: int| 0 <= x < n ==> (#[trigger] p[x]).len() == m
}

/// The picture of `n` columns and `m` rows that shows `c` everywhere.
pub open spec fn uniform(c: Color, n: int, m: int) -> Seq<Seq<Color>> {
    Seq::new(n as nat, |x: int| Seq::new(m as nat, |y: int| c))
}

/// The picture `p` with the pixels of `r` set to `c`.
pub open spec fn filled(p: Seq<Seq<Color>>, r: Rect, c: Color) -> Seq<Seq<Color>> {
    Seq::new(
        p.len(),
        |x: int|
            Seq::new(
                p[x].len(),
                |y: int|
                    if r.covers(x, y) {
                        c
                    } else {
                        p[x][y]
                    },
            ),
    )
}

/// The picture `p` with the pixels of `r1` and `r2` exchanged, each pixel
/// with the one at the same place in the other rectangle.
pub open spec fn swapped(p: Seq<Seq<Color>>, r1: Rect, r2: Rect) -> Seq<Seq<Color>> {
    Seq::new(
        p.len(),
        |x: int|
            Seq::new(
                p[x].len(),
                |y: int|
                    if r1.covers(x, y) {
                        p[x + r2.from.x - r1.from.x][y + r2.from.y - r1.from.y]
                    } else if r2.covers(x, y) {
                        p[x + r1.from.x - r2.from.x][y + r1.from.y - r2.from.y]
                    } else {
                        p[x][y]
                    },
            ),
    )
}

/// A grid and its colours have the same shape.
pub proof fn lemma_cells_shape(a: Seq<Vec<Color>>, n: int, m: int)
    ensures
        is_grid(a, n, m) <==> is_picture(cells(a), n, m),
{
    if is_grid(a, n, m) {
        assert forall|x: int| 0 <= x < n implies (#[trigger] cells(a)[x]).len() == m by {
            assert(a[x].len() == m);
        }
    }
    if is_picture(cells(a), n, m) {
        assert forall|x: int| 0 <= x < n implies (#[trigger] a[x]).len() == m by {
            assert(cells(a)[x].len() == m);
        }
    }
}

/// A new picture of `n` columns and `m` rows that shows `c` everywhere.
pub fn new_picture(c: Color, n: usize, m: usize) -> (a: Vec<Vec<Color>>)
    ensures
        is_grid(a@, n as int, m as int),
        cells(a@) == uniform(c, n as int, m as int),
{
    let mut a: Vec<Vec<Color>> = Vec::new();
    let mut x: usize = 0;
    while x < n
        invariant
            x <= n,
            a@.len() == x,
            forall|i: int| 0 <= i < x ==> (#[trigger] a@[i])@ == Seq::new(m as nat, |y: int| c),
        decreases n - x,
    {
        let mut col: Vec<Color> = Vec::new();
        let mut y: usize = 0;
        while y < m
            invariant
                y <= m,
                col@.len() == y,
                forall|j: int| 0 <= j < y ==> col@[j] == c,
            decreases m - y,
        {
            col.push(c);
            y = y + 1;
        }
        assert(col@ =~= Seq::new(m as nat, |y: int| c));
        a.push(col);
        x = x + 1;
    }
    assert(cells(a@) =~= uniform(c, n as int, m as int));
    a
}

/// A copy of a picture.
pub fn copy_picture(src: &Vec<Vec<Color>>) -> (a: Vec<Vec<Color>>)
    ensures
        cells(a@) == cells(src@),
        forall|n: int, m: int| is_grid(src@, n, m) ==> is_grid(a@, n, m),
{
    let mut a: Vec<Vec<Color>> = Vec::new();
    let mut x: usize = 0;
    while x < src.len()
        invariant
            x <= src@.len(),
            a@.len() == x,
            forall|i: int| 0 <= i < x ==> (#[trigger] a@[i])@ == src@[i]@,
        decreases src@.len() - x,
    {
        let mut col: Vec<Color> = Vec::new();
        let mut y: usize = 0;
        while y < src[x].len()
            invariant
                x < src@.len(),
                y <= src@[x as int]@.len(),
                col@.len() == y,
                forall|j: int| 0 <= j < y ==> col@[j] == src@[x as int]@[j],
            decreases src@[x as int]@.len() - y,
        {
            col.push(src[x][y]);
            y = y + 1;
        }
        assert(col@ =~= src@[x as int]@);
        a.push(col);
        x = x + 1;
    }
    assert(cells(a@) =~= cells(src@));
    assert forall|n: int, m: int| is_grid(src@, n, m) implies is_grid(a@, n, m) by {
        assert forall|i: int| 0 <= i < n implies (#[trigger] a@[i]).len() == m by {
            assert(src@[i].len() == m);
        }
    }
    a
}

/// Sets the pixels of `r` to `c`.
pub fn fill(a: &mut Vec<Vec<Color>>, r: Rect, c: Color, n: usize, m: usize)
    requires
        is_grid(old(a)@, n as int, m as int),
        0 <= r.from.x <= r.to.x <= n,
        0 <= r.from.y <= r.to.y <= m,
    ensures
        is_grid(final(a)@, n as int, m as int),
        cells(final(a)@) == filled(cells(old(a)@), r, c),
{
    let x0: usize = r.from.x as usize;
    let x1: usize = r.to.x as usize;
    let y0: usize = r.from.y as usize;
    let y1: usize = r.to.y as usize;
    let mut x: usize = x0;
    while x < x1
        invariant
            x0 <= x <= x1 <= n,
            y0 <= y1 <= m,
            x0 == r.from.x,
            x1 == r.to.x,
            y0 == r.from.y,
            y1 == r.to.y,
            is_grid(a@, n as int, m as int),
            is_grid(old(a)@, n as int, m as int),
            forall|i: int, j: int|
                0 <= i < n && 0 <= j < m ==> (#[trigger] a@[i]@[j]) == (if x0 <= i < x && y0 <= j
                    < y1 {
                    c
                } else {
                    old(a)@[i]@[j]
                }),
        decreases x1 - x,
    {
        let mut y: usize = y0;
        while y < y1
            invariant
                x0 <= x < x1 <= n,
                y0 <= y <= y1 <= m,
                is_grid(a@, n as int, m as int),
                is_grid(old(a)@, n as int, m as int),
                forall|i: int, j: int|
                    0 <= i < n && 0 <= j < m ==> (#[trigger] a@[i]@[j]) == (if (x0 <= i < x && y0
                        <= j < y1) || (i == x && y0 <= j < y) {
                        c
                    } else {
                        old(a)@[i]@[j]
                    }),
            decreases y1 - y,
        {
            let ghost prev = a@;
            assert(a@[x as int].len() == m);
            a[x][y] = c;
            proof {
                assert forall|i: int| 0 <= i < n implies (#[trigger] a@[i]).len() == m by {
                    if i != x {
                        assert(a@[i] == prev[i]);
                        assert(prev[i].len() == m);
                    }
                }
            }
            y = y + 1;
        }
        x = x + 1;
    }
    proof {
        let p = cells(old(a)@);
        let q = filled(p, r, c);
        assert(cells(a@).len() == q.len());
        assert forall|i: int| 0 <= i < n implies #[trigger] cells(a@)[i] =~= q[i] by {
            assert(a@[i].len() == m);
            assert(old(a)@[i].len() == m);
            assert forall|j: int| 0 <= j < m implies cells(a@)[i][j] == q[i][j] by {
                assert(a@[i]@[j] == if x0 <= i < x1 && y0 <= j < y1 {
                    c
                } else {
                    old(a)@[i]@[j]
                });
            }
        }
        assert(cells(a@) =~= q);
    }
}

/// Tells whether two pictures of the same size show the same colours.
pub fn same_picture(a: &Vec<Vec<Color>>, b: &Vec<Vec<Color>>, n: usize, m: usize) -> (r: bool)
    requires
        is_grid(a@, n as int, m as int),
        is_grid(b@, n as int, m as int),
    ensures
        r == (cells(a@) == cells(b@)),
{
    let mut x: usize = 0;
    while x < n
        invariant
            x <= n,
            is_grid(a@, n as int, m as int),
            is_grid(b@, n as int, m as int),
            forall|i: int| 0 <= i < x ==> (#[trigger] a@[i])@ == b@[i]@,
        decreases n - x,
    {
        let mut y: usize = 0;
        assert(a@[x as int].len() == m);
        assert(b@[x as int].len() == m);
        while y < m
            invariant
                x < n,
                y <= m,
                a@[x as int].len() == m,
                b@[x as int].len() == m,
                a@.len() == n,
                b@.len() == n,
                forall|j: int| 0 <= j < y ==> a@[x as int]@[j] == b@[x as int]@[j],
            decreases m - y,
        {
            proof {
                lemma_color_eq(a@[x as int]@[y as int], b@[x as int]@[y as int]);
            }
            if a[x][y] != b[x][y] {
                assert(cells(a@)[x as int][y as int] != cells(b@)[x as int][y as int]);
                return false;
            }
            y = y + 1;
        }
        assert(a@[x as int]@ =~= b@[x as int]@);
        x = x + 1;
    }
    assert(cells(a@) =~= cells(b@));
    true
}

} // verus!
