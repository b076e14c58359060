//! Quarter turns of an instance, one after the other: turns add up, four
//! of them bring the instance back, and a solution of an instance is a
//! solution of each of its copies.

use crate::picture::cells;
use crate::rotator::{
    is_copy, is_quarter_turn, is_turn, lemma_copy_replays, res_replays, turned_rect,
};
use crate::op::ops_view;
use crate::solve::SolutionRes;
use crate::test_case::{is_grid, Rect, TestCase};
use vstd::prelude::*;

verus! {

/// A copy of a copy of an instance is a copy of the instance.
pub proof fn lemma_copy_of_copy(a: TestCase, b: TestCase, c: TestCase)
    requires
        is_copy(a, b),
        is_copy(b, c),
    ensures
        is_copy(a, c),
{
    assert forall|i: int| 0 <= i < a.regions@.len() implies (#[trigger] c.regions@[i]).name@
        == a.regions@[i].name@ && c.regions@[i].color == a.regions@[i].color && c.regions@[i].rect
        == a.regions@[i].rect by {
        assert(b.regions@[i].name@ == a.regions@[i].name@);
    }
}

/// A copy of a quarter turn of an instance is a quarter turn of the
/// instance.
pub proof fn lemma_copy_of_quarter(a: TestCase, b: TestCase, c: TestCase)
    requires
        a.wf(),
        is_quarter_turn(a, b),
        is_copy(b, c),
    ensures
        is_quarter_turn(a, c),
{
    let n = a.n();
    assert forall|x: int, y: int| 0 <= x < n && 0 <= y < n implies c.expected@[y]@[n - 1 - x]
        == #[trigger] a.expected@[x]@[y] by {
        assert(cells(c.expected@)[y] == cells(b.expected@)[y]);
    }
    assert forall|x: int, y: int| 0 <= x < n && 0 <= y < n implies c.start_field@[y]@[n - 1 - x]
        == #[trigger] a.start_field@[x]@[y] by {
        assert(cells(c.start_field@)[y] == cells(b.start_field@)[y]);
    }
    assert forall|i: int| 0 <= i < a.regions@.len() implies (#[trigger] c.regions@[i]).name@
        == a.regions@[i].name@ && c.regions@[i].color == a.regions@[i].color && c.regions@[i].rect
        == turned_rect(a.regions@[i].rect, n) by {
        assert(b.regions@[i].name@ == a.regions@[i].name@);
    }
}

/// Every instance that an instance turns into has its size and is well
/// formed.
pub proof fn lemma_turn_shape(a: TestCase, b: TestCase, k: nat)
    requires
        a.wf(),
        is_turn(a, b, k),
    ensures
        b.wf(),
        b.n() == a.n(),
        b.m() == a.m(),
        b.test_id == a.test_id,
        b.regions@.len() == a.regions@.len(),
    decreases k,
{
    if k > 0 {
        let mid = choose|mid: TestCase|
            #![trigger is_quarter_turn(mid, b)]
            is_turn(a, mid, (k - 1) as nat) && is_quarter_turn(mid, b);
        lemma_turn_shape(a, mid, (k - 1) as nat);
    }
}

/// A copy of what an instance turns into is what the instance turns into.
pub proof fn lemma_copy_of_turn(a: TestCase, b: TestCase, c: TestCase, k: nat)
    requires
        a.wf(),
        is_turn(a, b, k),
        is_copy(b, c),
    ensures
        is_turn(a, c, k),
{
    if k == 0 {
        lemma_copy_of_copy(a, b, c);
    } else {
        let mid = choose|mid: TestCase|
            #![trigger is_quarter_turn(mid, b)]
            is_turn(a, mid, (k - 1) as nat) && is_quarter_turn(mid, b);
        lemma_turn_shape(a, mid, (k - 1) as nat);
        lemma_copy_of_quarter(mid, b, c);
        assert(is_turn(a, mid, (k - 1) as nat) && is_quarter_turn(mid, c));
    }
}

/// Turns add up: what an instance turns into after `j` quarter turns and
/// then `k` more is what it turns into after `j + k`.
pub proof fn lemma_turns_add(a: TestCase, b: TestCase, c: TestCase, j: nat, k: nat)
    requires
        a.wf(),
        is_turn(a, b, j),
        is_turn(b, c, k),
    ensures
        is_turn(a, c, j + k),
    decreases k,
{
    if k == 0 {
        lemma_copy_of_turn(a, b, c, j);
    } else {
        let mid = choose|mid: TestCase|
            #![trigger is_quarter_turn(mid, c)]
            is_turn(b, mid, (k - 1) as nat) && is_quarter_turn(mid, c);
        lemma_turns_add(a, b, mid, j, (k - 1) as nat);
        assert(is_turn(a, mid, (j + k - 1) as nat) && is_quarter_turn(mid, c));
    }
}

/// Four quarter turns bring a rectangle of a square canvas back.
pub proof fn lemma_rect_turned_back(r: Rect, n: int)
    requires
        n <= 65535,
        r.inside(n, n),
    ensures
        turned_rect(turned_rect(turned_rect(turned_rect(r, n), n), n), n) == r,
{
}

/// A picture of a square canvas after four quarter turns, each of which
/// shows the pixel `(x, y)` at `(y, n - 1 - x)`, is the picture.
proof fn lemma_picture_turned_back<T>(
    a: Seq<Vec<T>>,
    b: Seq<Vec<T>>,
    c: Seq<Vec<T>>,
    d: Seq<Vec<T>>,
    e: Seq<Vec<T>>,
    n: int,
)
    requires
        is_grid(a, n, n),
        is_grid(b, n, n),
        is_grid(c, n, n),
        is_grid(d, n, n),
        is_grid(e, n, n),
        forall|x: int, y: int| 0 <= x < n && 0 <= y < n ==> b[y]@[n - 1 - x] == #[trigger] a[x]@[y],
        forall|x: int, y: int| 0 <= x < n && 0 <= y < n ==> c[y]@[n - 1 - x] == #[trigger] b[x]@[y],
        forall|x: int, y: int| 0 <= x < n && 0 <= y < n ==> d[y]@[n - 1 - x] == #[trigger] c[x]@[y],
        forall|x: int, y: int| 0 <= x < n && 0 <= y < n ==> e[y]@[n - 1 - x] == #[trigger] d[x]@[y],
    ensures
        forall|x: int, y: int| 0 <= x < n && 0 <= y < n ==> (#[trigger] e[x]@[y]) == a[x]@[y],
{
    assert forall|x: int, y: int| 0 <= x < n && 0 <= y < n implies (#[trigger] e[x]@[y])
        == a[x]@[y] by {
        assert(b[y]@[n - 1 - x] == a[x]@[y]);
        assert(c[n - 1 - x]@[n - 1 - y] == b[y]@[n - 1 - x]);
        assert(d[n - 1 - y]@[n - 1 - (n - 1 - x)] == c[n - 1 - x]@[n - 1 - y]);
        assert(e[x]@[n - 1 - (n - 1 - y)] == d[n - 1 - y]@[x]);
    }
}

/// Four quarter turns bring an instance back: what a well-formed instance
/// with a square canvas turns into after four quarter turns is a copy of
/// it.
pub proof fn lemma_four_turns(a: TestCase, e: TestCase)
    requires
        a.wf(),
        a.n() == a.m(),
        is_turn(a, e, 4),
    ensures
        is_copy(a, e),
{
    let d = choose|d: TestCase|
        #![trigger is_quarter_turn(d, e)]
        is_turn(a, d, 3) && is_quarter_turn(d, e);
    let c = choose|c: TestCase|
        #![trigger is_quarter_turn(c, d)]
        is_turn(a, c, 2) && is_quarter_turn(c, d);
    let b = choose|b: TestCase|
        #![trigger is_quarter_turn(b, c)]
        is_turn(a, b, 1) && is_quarter_turn(b, c);
    let a1 = choose|a1: TestCase|
        #![trigger is_quarter_turn(a1, b)]
        is_turn(a, a1, 0) && is_quarter_turn(a1, b);
    assert(is_copy(a, a1));
    let n = a.n();
    lemma_turn_shape(a, b, 1);
    lemma_turn_shape(a, c, 2);
    lemma_turn_shape(a, d, 3);
    lemma_picture_turned_back(a1.expected@, b.expected@, c.expected@, d.expected@, e.expected@, n);
    lemma_picture_turned_back(
        a1.start_field@,
        b.start_field@,
        c.start_field@,
        d.start_field@,
        e.start_field@,
        n,
    );
    assert(cells(e.expected@) =~= cells(a.expected@)) by {
        assert forall|x: int| 0 <= x < n implies #[trigger] cells(e.expected@)[x] =~= cells(
            a.expected@,
        )[x] by {
            assert(cells(a1.expected@)[x] == cells(a.expected@)[x]);
            assert forall|y: int| 0 <= y < n implies e.expected@[x]@[y] == a1.expected@[x]@[y] by {}
        }
    }
    assert(cells(e.start_field@) =~= cells(a.start_field@)) by {
        assert forall|x: int| 0 <= x < n implies #[trigger] cells(e.start_field@)[x] =~= cells(
            a.start_field@,
        )[x] by {
            assert(cells(a1.start_field@)[x] == cells(a.start_field@)[x]);
            assert forall|y: int| 0 <= y < n implies e.start_field@[x]@[y]
                == a1.start_field@[x]@[y] by {}
        }
    }
    assert forall|i: int| 0 <= i < a.regions@.len() implies (#[trigger] e.regions@[i]).name@
        == a.regions@[i].name@ && e.regions@[i].color == a.regions@[i].color && e.regions@[i].rect
        == a.regions@[i].rect by {
        assert(a1.regions@[i].name@ == a.regions@[i].name@);
        assert(b.regions@[i].name@ == a1.regions@[i].name@);
        assert(c.regions@[i].name@ == b.regions@[i].name@);
        assert(d.regions@[i].name@ == c.regions@[i].name@);
        assert(e.regions@[i].name@ == d.regions@[i].name@);
        assert(a1.regions@[i].rect.inside(n, n));
        lemma_rect_turned_back(a1.regions@[i].rect, n);
    }
}

/// Turning an instance with a square canvas `k` quarter turns and then as
/// many more as make a full turn gives a copy of the instance.
pub proof fn lemma_turned_back(given: TestCase, turned: TestCase, back: TestCase, k: nat)
    requires
        given.wf(),
        given.n() == given.m(),
        k < 4,
        is_turn(given, turned, k),
        is_turn(turned, back, ((4 - k) % 4) as nat),
    ensures
        is_copy(given, back),
{
    lemma_turns_add(given, turned, back, k, ((4 - k) % 4) as nat);
    if k > 0 {
        lemma_four_turns(given, back);
    }
}

/// A solution of a copy of an instance is a solution of the instance: its
/// program replays alike, and its picture is as far from what is asked for.
pub proof fn lemma_copy_solved(a: TestCase, b: TestCase, r: SolutionRes)
    requires
        is_copy(a, b),
        res_replays(b, r),
    ensures
        res_replays(a, r),
{
    lemma_copy_replays(a, b, ops_view(r.ops@));
}

} // verus!
