//! How the pixels of a picture are given to corner-anchored rectangles,
//! pixel by pixel, and in which orders the rectangles may then be painted.

use crate::color::Color;
use crate::solution::SolutionRect;
use crate::utils::Point;
use vstd::prelude::*;

verus! {

/// The rows of a table, as sequences.
pub open spec fn rows<T>(a: Seq<Vec<T>>) -> Seq<Seq<T>> {
    Seq::new(a.len(), |i: int| a[i]@)
}

/// The rectangles found so far, the table that says which of them is to be
/// painted after which, and for every pixel the rectangle that it was given
/// to (`usize::MAX` for none yet).
pub struct Placed {
    pub rects: Seq<SolutionRect>,
    pub after: Seq<Seq<bool>>,
    pub owner: Seq<Seq<usize>>,
}

/// The table `after` with the mark that `x` is to be painted after `y`.
pub open spec fn with_mark(after: Seq<Seq<bool>>, x: int, y: int) -> Seq<Seq<bool>> {
    after.update(x, after[x].update(y, true))
}

/// The table `after` with one more row and one more column, both without
/// marks.
pub open spec fn grown(after: Seq<Seq<bool>>) -> Seq<Seq<bool>> {
    Seq::new(
        after.len() + 1,
        |i: int|
            Seq::new(
                after.len() + 1,
                |j: int| i < after.len() && j < after.len() && after[i][j],
            ),
    )
}

/// The table `owner` with the pixel `(x, y)` given to the rectangle `o`.
pub open spec fn given_to(owner: Seq<Seq<usize>>, x: int, y: int, o: usize) -> Seq<Seq<usize>> {
    owner.update(x, owner[x].update(y, o))
}

/// The rectangles of the left and of the lower neighbour of the pixel
/// `(x, y)`, where it has them; one of them only if both are the same.
pub open spec fn neighbours(owner: Seq<Seq<usize>>, x: int, y: int) -> Seq<usize> {
    let left = if x > 0 {
        seq![owner[x - 1][y]]
    } else {
        Seq::<usize>::empty()
    };
    if y > 0 && (left.len() == 0 || left[0] != owner[x][y - 1]) {
        left.push(owner[x][y - 1])
    } else {
        left
    }
}

/// The rectangle among `prevs` that a pixel of colour `c` joins, and the
/// table after it joined; nothing if the pixel needs a rectangle of its
/// own.  A pixel with one neighbouring rectangle joins it if it has the
/// colour.  With two, `a` and `b`, it joins the one that has the colour,
/// unless that one is to be painted before the other; if both have the
/// colour it joins `a` if `a` is to be painted after `b`, and else `b`.
/// The rectangle that it joins is marked to be painted after the other.
pub open spec fn joined(st: Placed, prevs: Seq<usize>, c: Color) -> Option<(usize, Seq<Seq<bool>>)> {
    if prevs.len() == 1 {
        if st.rects[prevs[0] as int].color == c {
            Some((prevs[0], st.after))
        } else {
            None
        }
    } else if prevs.len() == 2 {
        let a = prevs[0];
        let b = prevs[1];
        let a_fits = st.rects[a as int].color == c;
        let b_fits = st.rects[b as int].color == c;
        if !a_fits && !b_fits {
            None
        } else if !a_fits && st.after[a as int][b as int] {
            None
        } else if !b_fits && st.after[b as int][a as int] {
            None
        } else if !a_fits {
            Some((b, with_mark(st.after, b as int, a as int)))
        } else if !b_fits {
            Some((a, with_mark(st.after, a as int, b as int)))
        } else if st.after[a as int][b as int] {
            Some((a, st.after))
        } else {
            Some((b, with_mark(st.after, b as int, a as int)))
        }
    } else {
        None
    }
}

/// The table `after`, grown by the rectangle `id`, which is to be painted
/// after each of `prevs`.
pub open spec fn grown_after(after: Seq<Seq<bool>>, id: int, prevs: Seq<usize>) -> Seq<Seq<bool>>
    decreases prevs.len(),
{
    if prevs.len() == 0 {
        grown(after)
    } else {
        with_mark(grown_after(after, id, prevs.drop_last()), id, prevs.last() as int)
    }
}

/// What is placed after the pixel `(x, y)` of a canvas of `n` columns and
/// `m` rows, which is to show the colour `c`, was given to a rectangle: to
/// the one that it joins, or to a new rectangle anchored at it, which is to
/// be painted after the rectangles of its neighbours.
pub open spec fn place(st: Placed, c: Color, x: int, y: int, n: int, m: int) -> Placed {
    let prevs = neighbours(st.owner, x, y);
    match joined(st, prevs, c) {
        Some((o, after)) => Placed { rects: st.rects, after, owner: given_to(st.owner, x, y, o) },
        None => Placed {
            rects: st.rects.push(
                SolutionRect {
                    from: Point { x: x as i32, y: y as i32 },
                    to: Point { x: n as i32, y: m as i32 },
                    color: c,
                },
            ),
            after: grown_after(st.after, st.rects.len() as int, prevs),
            owner: given_to(st.owner, x, y, st.rects.len() as usize),
        },
    }
}

/// Nothing is placed yet on a canvas of `n` columns and `m` rows.
pub open spec fn nothing_placed(n: int, m: int) -> Placed {
    Placed {
        rects: Seq::empty(),
        after: Seq::empty(),
        owner: Seq::new(n as nat, |x: int| Seq::new(m as nat, |y: int| usize::MAX)),
    }
}

/// What is placed when the pixels of the picture `need` that come before
/// the pixel `(x, y)` were given to rectangles, column by column and in
/// each column from the lowest row on.
pub open spec fn placed(need: Seq<Seq<Color>>, n: int, m: int, x: int, y: int) -> Placed
    decreases x, y,
{
    if x < 0 || y < 0 || (x == 0 && y == 0) {
        nothing_placed(n, m)
    } else if y == 0 {
        placed(need, n, m, x - 1, m)
    } else {
        place(placed(need, n, m, x, y - 1), need[x][y - 1], x, y - 1, n, m)
    }
}

/// The rectangle `j` stands before the place `k` of `order`.
pub open spec fn comes_before(order: Seq<int>, k: int, j: int) -> bool {
    exists|t: int| 0 <= t < k && #[trigger] order[t] == j
}

/// The rectangle `i` is to be painted after one of the first `count` that
/// is not in `order`.
pub open spec fn is_blocked(after: Seq<Seq<bool>>, order: Seq<int>, i: int, count: int) -> bool {
    exists|j: int| 0 <= j < count && !order.contains(j) && #[trigger] after[i][j]
}

/// `sorted` holds the rectangles of `rects` at the places that `order`
/// lists, each place once.  Each stands after every rectangle that `after`
/// says it is to be painted after, and every rectangle that is left out is
/// to be painted after one that is left out.
pub open spec fn is_edge_order(
    rects: Seq<SolutionRect>,
    after: Seq<Seq<bool>>,
    sorted: Seq<SolutionRect>,
    order: Seq<int>,
) -> bool {
    &&& order.len() == sorted.len()
    &&& forall|k: int|
        0 <= k < order.len() ==> 0 <= #[trigger] order[k] < rects.len() && sorted[k]
            == rects[order[k]]
    &&& forall|k1: int, k2: int|
        0 <= k1 < k2 < order.len() ==> #[trigger] order[k1] != #[trigger] order[k2]
    &&& forall|k: int, j: int|
        0 <= k < order.len() && 0 <= j < rects.len() && #[trigger] after[order[k]][j]
            ==> comes_before(order, k, j)
    &&& forall|i: int|
        0 <= i < rects.len() && !order.contains(i) ==> #[trigger] is_blocked(
            after,
            order,
            i,
            rects.len() as int,
        )
}

/// The rectangle `i` is to be painted after none that `used` does not
/// mark.
pub open spec fn is_free(after: Seq<Seq<bool>>, used: Seq<bool>, i: int) -> bool {
    forall|j: int| 0 <= j < used.len() ==> used[j] || !(#[trigger] after[i][j])
}

/// What is taken after a round has looked at the first `i` rectangles:
/// the marks of the rectangles taken and the places taken, in order.  The
/// round starts from `used` and `order`, and takes each rectangle that is
/// not taken yet and is to be painted after none that is left.
pub open spec fn scanned(after: Seq<Seq<bool>>, used: Seq<bool>, order: Seq<int>, i: int) -> (
    Seq<bool>,
    Seq<int>,
)
    decreases i,
{
    if i <= 0 {
        (used, order)
    } else {
        let prev = scanned(after, used, order, i - 1);
        if !prev.0[i - 1] && is_free(after, prev.0, i - 1) {
            (prev.0.update(i - 1, true), prev.1.push(i - 1))
        } else {
            prev
        }
    }
}

/// What is taken of `count` rectangles after `p` rounds.
pub open spec fn rounds(after: Seq<Seq<bool>>, count: int, p: int) -> (Seq<bool>, Seq<int>)
    decreases p,
{
    if p <= 0 {
        (Seq::new(count as nat, |i: int| false), Seq::empty())
    } else {
        let prev = rounds(after, count, p - 1);
        scanned(after, prev.0, prev.1, count)
    }
}

/// The places of `count` rectangles in the order in which the rounds take
/// them; a round for each rectangle is enough.
pub open spec fn edge_order(after: Seq<Seq<bool>>, count: int) -> Seq<int> {
    rounds(after, count, count).1
}

/// The rectangles of `rects` at the places that `order` lists.
pub open spec fn picked_rects(rects: Seq<SolutionRect>, order: Seq<int>) -> Seq<SolutionRect> {
    Seq::new(order.len(), |k: int| rects[order[k]])
}

/// A round that takes nothing is the last that takes anything: the rounds
/// after it leave what is taken as it is.
pub proof fn lemma_rounds_settle(after: Seq<Seq<bool>>, count: int, p: int, q: int)
    requires
        0 <= p <= q,
        rounds(after, count, p + 1) == rounds(after, count, p),
    ensures
        rounds(after, count, q) == rounds(after, count, p),
    decreases q - p,
{
    if q > p {
        lemma_rounds_settle(after, count, p, q - 1);
    }
}

/// Number of entries of `s` that are set.
pub open spec fn count_set(s: Seq<bool>) -> nat
    decreases s.len(),
{
    if s.len() == 0 {
        0
    } else {
        count_set(s.drop_last()) + if s.last() {
            1nat
        } else {
            0nat
        }
    }
}

/// Setting an entry that was not set makes one more.
pub proof fn lemma_count_set_update(s: Seq<bool>, i: int)
    requires
        0 <= i < s.len(),
        !s[i],
    ensures
        count_set(s.update(i, true)) == count_set(s) + 1,
    decreases s.len(),
{
    let t = s.update(i, true);
    if i == s.len() - 1 {
        assert(t.drop_last() =~= s.drop_last());
    } else {
        assert(t.drop_last() =~= s.drop_last().update(i, true));
        lemma_count_set_update(s.drop_last(), i);
    }
}

/// No more entries are set than there are, and if as many are set then
/// all are.
pub proof fn lemma_count_set_bound(s: Seq<bool>)
    ensures
        count_set(s) <= s.len(),
        count_set(s) == s.len() ==> forall|i: int| 0 <= i < s.len() ==> s[i],
        (forall|i: int| 0 <= i < s.len() ==> !s[i]) ==> count_set(s) == 0,
    decreases s.len(),
{
    if s.len() > 0 {
        lemma_count_set_bound(s.drop_last());
        if count_set(s) == s.len() {
            assert forall|i: int| 0 <= i < s.len() implies s[i] by {
                if i < s.len() - 1 {
                    assert(s.drop_last()[i]);
                }
            }
        }
        if forall|i: int| 0 <= i < s.len() ==> !s[i] {
            assert forall|i: int| 0 <= i < s.drop_last().len() implies !s.drop_last()[i] by {
                assert(!s[i]);
            }
        }
    }
}

} // verus!
