//! Coordinate grids: the lines along which the solver may cut a canvas.

use crate::rand::{next_state, output_between, Random};
use vstd::prelude::*;

verus! {

/// The numbers of `v` grow strictly.
pub open spec fn increasing(v: Seq<usize>) -> bool {
    forall|i: int, j: int| 0 <= i < j < v.len() ==> v[i] < v[j]
}

/// `v` is a grid of at least two lines, in growing order, none beyond
/// `limit`.
pub open spec fn coords_ok(v: Seq<usize>, limit: int) -> bool {
    v.len() >= 2 && increasing(v) && v.last() <= limit
}

/// Every line of the grid `coarse` is a line of the grid `fine`.
pub open spec fn refines(fine: Seq<usize>, coarse: Seq<usize>) -> bool {
    forall|i: int| 0 <= i < coarse.len() ==> fine.contains(#[trigger] coarse[i])
}

/// Number of lines that `add_more_coords` puts between two neighbouring
/// lines at most.
pub const BETWEEN: usize = 2;

/// The grid with a line every `block_size` from zero on, and a last line at
/// `max_value`.
pub fn gen_coords(block_size: usize, max_value: usize) -> (res: Vec<usize>)
    requires
        block_size >= 1,
    ensures
        res@.len() >= 2,
        max_value >= 1 ==> coords_ok(res@, max_value as int),
        res@.last() == max_value,
        forall|i: int| 0 <= i < res@.len() - 1 ==> (#[trigger] res@[i]) == i * block_size,
        (res@.len() - 1) * block_size >= max_value,
        (res@.len() - 2) * block_size < max_value || res@.len() == 2,
{
    let mut res: Vec<usize> = Vec::new();
    res.push(0);
    let mut last: usize = 0;
    assert(0 * block_size == 0) by (nonlinear_arith);
    loop
        invariant_except_break
            res@.len() >= 1,
            last < max_value || res@.len() == 1,
            last <= max_value,
            res@.last() == last,
            forall|i: int| 0 <= i < res@.len() ==> (#[trigger] res@[i]) == i * block_size,
        invariant
            block_size >= 1,
        ensures
            res@.len() >= 2,
            max_value >= 1 ==> coords_ok(res@, max_value as int),
            res@.last() == max_value,
            forall|i: int| 0 <= i < res@.len() - 1 ==> (#[trigger] res@[i]) == i * block_size,
            (res@.len() - 1) * block_size >= max_value,
            (res@.len() - 2) * block_size < max_value || res@.len() == 2,
        decreases max_value - last,
    {
        let ghost before = res@;
        let ghost k = res@.len() as int;
        proof {
            assert((k - 1) * block_size + block_size == k * block_size) by (nonlinear_arith);
            assert forall|i: int, j: int| 0 <= i < j < before.len() implies before[i]
                < before[j] by {
                assert(i * block_size < j * block_size) by (nonlinear_arith)
                    requires
                        i < j,
                        block_size >= 1,
                ;
            }
        }
        if block_size >= max_value - last {
            res.push(max_value);
            proof {
                if max_value >= 1 {
                    assert(0 * block_size == 0) by (nonlinear_arith);
                    assert((k - 1) * block_size == last);
                    assert(last < max_value);
                    assert forall|i: int, j: int| 0 <= i < j < res@.len() implies res@[i]
                        < res@[j] by {
                        if j == before.len() {
                            assert(before[i] == i * block_size);
                            assert(i * block_size <= (k - 1) * block_size) by (nonlinear_arith)
                                requires
                                    i <= k - 1,
                                    block_size >= 1,
                            ;
                        } else {
                            assert(before[i] < before[j]);
                        }
                    }
                }
                assert((k - 1) * block_size == last);
            }
            break;
        } else {
            last = last + block_size;
            res.push(last);
        }
    }
    res
}

/// Two different numbers below `cnt` that the generator picks from state
/// `s` on, the smaller one first, and the state in which it leaves the
/// generator: it draws one of the `cnt` numbers and then one of the
/// `cnt - 1` others.
pub open spec fn picked_pair(s: u64, cnt: int) -> (int, int, u64) {
    let s1 = next_state(s);
    let s2 = next_state(s1);
    let first = output_between(s1, 0, cnt);
    let raw = output_between(s2, 0, cnt - 1);
    let second = if raw >= first {
        raw + 1
    } else {
        raw
    };
    if first < second {
        (first, second, s2)
    } else {
        (second, first, s2)
    }
}

/// The lines after the line `prev` up to the next line of a grid, `next`
/// included, once lines were put between the two, and the state in which
/// that leaves the generator: every line between the two if no more than
/// `BETWEEN` fit, else the two that the generator picks from state `s` on.
pub open spec fn interval_lines(prev: usize, next: usize, s: u64) -> (Seq<usize>, u64) {
    let cnt = next - prev - 1;
    if cnt <= BETWEEN {
        (Seq::new((cnt + 1) as nat, |j: int| (prev + 1 + j) as usize), s)
    } else {
        let pick = picked_pair(s, cnt);
        (seq![(prev + 1 + pick.0) as usize, (prev + 1 + pick.1) as usize, next], pick.2)
    }
}

/// The first `i + 1` lines of the grid `coords` with lines put between
/// them, and the state in which that leaves the generator, which starts in
/// state `s`.
pub open spec fn more_coords(coords: Seq<usize>, s: u64, i: int) -> (Seq<usize>, u64)
    decreases i,
{
    if i <= 0 {
        (seq![coords[0]], s)
    } else {
        let before = more_coords(coords, s, i - 1);
        let added = interval_lines(coords[i - 1], coords[i], before.1);
        (before.0 + added.0, added.1)
    }
}

/// The lines after `prev` up to `next`, as `interval_lines` gives them,
/// grow strictly from above `prev` to `next`, and hold every line between
/// the two if no more than `BETWEEN` fit.
pub proof fn lemma_interval_lines(prev: usize, next: usize, s: u64)
    requires
        prev < next,
    ensures
        ({
            let lines = interval_lines(prev, next, s).0;
            &&& 1 <= lines.len() <= BETWEEN + 1
            &&& lines.last() == next
            &&& prev < lines[0]
            &&& increasing(lines)
            &&& forall|v: usize|
                prev < v < next && next - prev - 1 <= BETWEEN ==> #[trigger] lines.contains(v)
        }),
{
    let lines = interval_lines(prev, next, s).0;
    let cnt = next - prev - 1;
    if cnt <= BETWEEN {
        assert forall|v: usize| prev < v < next implies #[trigger] lines.contains(v) by {
            assert(lines[v - prev - 1] == v);
        }
    } else {
        let pick = picked_pair(s, cnt);
        assert(0 <= pick.0 < pick.1 < cnt);
    }
}

/// Appends to `res` the lines after `prev` up to `next`, `next` included.
fn push_interval(res: &mut Vec<usize>, prev: usize, next: usize, rnd: &mut Random)
    requires
        prev < next,
    ensures
        final(res)@ == old(res)@ + interval_lines(prev, next, old(rnd).state).0,
        final(rnd).state == interval_lines(prev, next, old(rnd).state).1,
{
    let cnt_inside = next - prev - 1;
    let ghost before = res@;
    if cnt_inside <= BETWEEN {
        let mut j: usize = prev + 1;
        assert(res@ =~= before + Seq::new(0, |k: int| (prev + 1 + k) as usize));
        while j < next
            invariant
                prev + 1 <= j <= next,
                prev < next,
                next - prev - 1 <= BETWEEN,
                res@ == before + Seq::new((j - prev - 1) as nat, |k: int| (prev + 1 + k) as usize),
            decreases next - j,
        {
            res.push(j);
            assert(res@ =~= before + Seq::new((j - prev) as nat, |k: int| (prev + 1 + k) as usize));
            j = j + 1;
        }
        res.push(next);
        assert(res@ =~= before + Seq::new((next - prev) as nat, |k: int| (prev + 1 + k) as usize));
    } else {
        let first = rnd.gen(0, cnt_inside);
        let mut second = rnd.gen(0, cnt_inside - 1);
        if second >= first {
            second = second + 1;
        }
        let low = if first < second {
            first
        } else {
            second
        };
        let high = if first < second {
            second
        } else {
            first
        };
        res.push(prev + 1 + low);
        res.push(prev + 1 + high);
        res.push(next);
        assert(res@ =~= before + interval_lines(prev, next, old(rnd).state).0);
    }
}

/// The lines that were put between the first `i + 1` lines of a grid grow
/// strictly, hold the lines of the grid, and end with line `i`.
pub proof fn lemma_more_coords(coords: Seq<usize>, s: u64, i: int)
    requires
        0 <= i < coords.len(),
        increasing(coords),
    ensures
        ({
            let lines = more_coords(coords, s, i).0;
            &&& i + 1 <= lines.len() <= i + 1 + BETWEEN * i
            &&& lines[0] == coords[0]
            &&& lines.last() == coords[i]
            &&& increasing(lines)
            &&& forall|k: int| 0 <= k <= i ==> lines.contains(#[trigger] coords[k])
            &&& forall|k: int, v: usize|
                #![trigger coords[k], lines.contains(v)]
                0 <= k < i && coords[k] < v < coords[k + 1] && coords[k + 1] - coords[k] - 1
                    <= BETWEEN ==> lines.contains(v)
        }),
    decreases i,
{
    let lines = more_coords(coords, s, i).0;
    if i == 0 {
        assert(lines[0] == coords[0]);
        assert(BETWEEN * 0 == 0) by (nonlinear_arith);
    } else {
        lemma_more_coords(coords, s, i - 1);
        let before = more_coords(coords, s, i - 1);
        let added = interval_lines(coords[i - 1], coords[i], before.1).0;
        assert(coords[i - 1] < coords[i]);
        lemma_interval_lines(coords[i - 1], coords[i], before.1);
        assert(lines =~= before.0 + added);
        assert(BETWEEN * i == BETWEEN * (i - 1) + BETWEEN) by (nonlinear_arith);
        assert forall|a: int, b: int| 0 <= a < b < lines.len() implies lines[a] < lines[b] by {
            let k = before.0.len() as int;
            if b < k {
                assert(before.0[a] < before.0[b]);
            } else if a >= k {
                assert(added[a - k] < added[b - k]);
            } else {
                if a < k - 1 {
                    assert(before.0[a] < before.0[k - 1]);
                }
                if b > k {
                    assert(added[0] < added[b - k]);
                }
            }
        }
        assert forall|j: int| 0 <= j <= i implies lines.contains(#[trigger] coords[j]) by {
            if j == i {
                assert(lines[lines.len() - 1] == coords[i]);
            } else {
                assert(before.0.contains(coords[j]));
                let w = choose|w: int| 0 <= w < before.0.len() && before.0[w] == coords[j];
                assert(lines[w] == coords[j]);
            }
        }
        assert forall|j: int, v: usize|
            #![trigger coords[j], lines.contains(v)]
            0 <= j < i && coords[j] < v < coords[j + 1] && coords[j + 1] - coords[j] - 1
                <= BETWEEN implies lines.contains(v) by {
            if j == i - 1 {
                assert(added.contains(v));
                let w = choose|w: int| 0 <= w < added.len() && added[w] == v;
                assert(lines[before.0.len() + w] == v);
            } else {
                assert(before.0.contains(v));
                let w = choose|w: int| 0 <= w < before.0.len() && before.0[w] == v;
                assert(lines[w] == v);
            }
        }
    }
}

/// Puts lines between the lines of the grid `coords`: every line that fits
/// between two neighbours if no more than `BETWEEN` fit, else `BETWEEN`
/// lines that `rnd` picks.
pub fn add_more_coords(coords: &[usize], rnd: &mut Random) -> (res: Vec<usize>)
    requires
        coords@.len() >= 1,
        increasing(coords@),
    ensures
        res@ == more_coords(coords@, old(rnd).state, coords@.len() - 1).0,
        final(rnd).state == more_coords(coords@, old(rnd).state, coords@.len() - 1).1,
        increasing(res@),
        res@.len() >= coords@.len(),
        res@.len() <= coords@.len() + BETWEEN * (coords@.len() - 1),
        res@[0] == coords@[0],
        res@.last() == coords@.last(),
        refines(res@, coords@),
        forall|i: int, v: usize|
            #![trigger coords@[i], res@.contains(v)]
            0 <= i < coords@.len() - 1 && coords@[i] < v < coords@[i + 1] && coords@[i + 1]
                - coords@[i] - 1 <= BETWEEN ==> res@.contains(v),
{
    let ghost s0 = rnd.state;
    let mut res: Vec<usize> = Vec::new();
    res.push(coords[0]);
    let mut i: usize = 0;
    assert(res@ =~= more_coords(coords@, s0, 0).0);
    while i < coords.len() - 1
        invariant
            i <= coords@.len() - 1,
            coords@.len() >= 1,
            increasing(coords@),
            res@ == more_coords(coords@, s0, i as int).0,
            rnd.state == more_coords(coords@, s0, i as int).1,
        decreases coords@.len() - 1 - i,
    {
        let prev = coords[i];
        let next = coords[i + 1];
        assert(prev < next);
        push_interval(&mut res, prev, next, rnd);
        i = i + 1;
    }
    proof {
        lemma_more_coords(coords@, s0, coords@.len() - 1);
    }
    res
}

/// For each line of the grid `xs`, its position in the grid `smaller_xs`,
/// which holds every line of `xs`.
pub fn get_mapping(xs: &[usize], smaller_xs: &[usize]) -> (res: Vec<usize>)
    requires
        increasing(smaller_xs@),
        refines(smaller_xs@, xs@),
    ensures
        res@.len() == xs@.len(),
        forall|i: int|
            0 <= i < xs@.len() ==> (#[trigger] res@[i]) < smaller_xs@.len() && smaller_xs@[res@[i] as int]
                == xs@[i],
{
    let mut res: Vec<usize> = Vec::new();
    let mut i: usize = 0;
    while i < xs.len()
        invariant
            i <= xs@.len(),
            increasing(smaller_xs@),
            refines(smaller_xs@, xs@),
            res@.len() == i,
            forall|k: int|
                0 <= k < i ==> (#[trigger] res@[k]) < smaller_xs@.len() && smaller_xs@[res@[k] as int]
                    == xs@[k],
        decreases xs@.len() - i,
    {
        let x = xs[i];
        proof {
            assert(smaller_xs@.contains(xs@[i as int]));
        }
        let ghost at = choose|w: int| 0 <= w < smaller_xs@.len() && smaller_xs@[w] == x;
        let mut lo: usize = 0;
        let mut hi: usize = smaller_xs.len();
        while hi - lo > 1
            invariant
                lo <= at < hi <= smaller_xs@.len(),
                smaller_xs@[at] == x,
                increasing(smaller_xs@),
            decreases hi - lo,
        {
            let mid = lo + (hi - lo) / 2;
            if smaller_xs[mid] <= x {
                proof {
                    if at < mid {
                        assert(smaller_xs@[at] < smaller_xs@[mid as int]);
                    }
                }
                lo = mid;
            } else {
                proof {
                    if at > mid {
                        assert(smaller_xs@[mid as int] < smaller_xs@[at]);
                    }
                }
                hi = mid;
            }
        }
        res.push(lo);
        i = i + 1;
    }
    res
}

} // verus!
