//! The program that merges the seed regions of a canvas divided into
//! square blocks, part by part.

use crate::op::{ops_view, Op, OpView};
use crate::placement::rows;
use crate::rect_id::{decimal, rect_id_from_usize, rect_id_sub_key, sub_key, RectId};
use crate::test_case::{Region, TestCase};
use vstd::prelude::*;

verus! {

/// The name of what `k` merges of a chain have made, if the chain starts
/// with the region `first` and the number `id` named the region merged
/// last before it.
pub open spec fn chain_name(first: Seq<u8>, id: nat, k: nat) -> Seq<u8> {
    if k == 0 {
        first
    } else {
        decimal(id + k)
    }
}

/// The merges of a chain: `first` with the first of `names`, what that
/// makes with the second, and so on.
pub open spec fn chain(first: Seq<u8>, names: Seq<Seq<u8>>, id: nat) -> Seq<OpView>
    decreases names.len(),
{
    if names.len() == 0 {
        Seq::empty()
    } else {
        chain(first, names.drop_last(), id).push(
            OpView::Merge(chain_name(first, id, (names.len() - 1) as nat), names.last()),
        )
    }
}

/// The number that names column `line` of blocks once its blocks are
/// merged, on a canvas of `tot` blocks a side where `base` named the region
/// merged last before.
pub open spec fn column_id(tot: int, base: nat, line: int) -> nat {
    (base + (line + 1) * (tot - 1)) as nat
}

/// The names of the first `lines` columns of blocks, merged.
pub open spec fn column_names(tot: int, base: nat, lines: int) -> Seq<Seq<u8>> {
    Seq::new(lines as nat, |c: int| decimal(column_id(tot, base, c)))
}

/// The merges that make columns of the first `lines` columns of blocks:
/// each column is a chain from its lowest block up.
pub open spec fn columns(names: Seq<Seq<u8>>, tot: int, base: nat, lines: int) -> Seq<OpView>
    decreases lines,
{
    if lines <= 0 {
        Seq::empty()
    } else {
        columns(names, tot, base, lines - 1) + chain(
            names[(lines - 1) * tot],
            names.subrange((lines - 1) * tot + 1, lines * tot),
            (base + (lines - 1) * (tot - 1)) as nat,
        )
    }
}

/// The name of what lies above the cut after `r` cuts of the region `cur`
/// into rows, each made in what lies above the cut before.
pub open spec fn upper(cur: Seq<u8>, r: nat) -> Seq<u8>
    decreases r,
{
    if r == 0 {
        cur
    } else {
        sub_key(upper(cur, (r - 1) as nat), 1)
    }
}

/// The first `count` cuts of the region `cur` into rows of `bs` lines.
pub open spec fn row_cuts(cur: Seq<u8>, bs: int, count: int) -> Seq<OpView> {
    Seq::new(count as nat, |r: int| OpView::CutY(upper(cur, r as nat), ((r + 1) * bs) as i32))
}

/// The names of the `tot` rows that the region `cur` is cut into.
pub open spec fn row_names(cur: Seq<u8>, tot: int) -> Seq<Seq<u8>> {
    Seq::new(
        tot as nat,
        |r: int|
            if r < tot - 1 {
                sub_key(upper(cur, r as nat), 0)
            } else {
                upper(cur, (tot - 1) as nat)
            },
    )
}

/// The blocks from `from` up to `upto` lie in rows that there are.
pub open spec fn rows_fit(rows_of: Seq<usize>, from: int, upto: int, tot: int) -> bool {
    forall|at: int| from <= at < upto ==> (#[trigger] rows_of[at]) < tot
}

/// The merges of the blocks from `from` up to `upto` onto the rows in
/// which they lie, and the names of the rows after them.  `ids` names the
/// rows before, and `id` the region merged last before.
pub open spec fn onto_rows(
    ids: Seq<Seq<u8>>,
    names: Seq<Seq<u8>>,
    rows_of: Seq<usize>,
    from: int,
    upto: int,
    id: nat,
) -> (Seq<OpView>, Seq<Seq<u8>>)
    decreases upto - from,
{
    if upto <= from {
        (Seq::empty(), ids)
    } else {
        let prev = onto_rows(ids, names, rows_of, from, upto - 1, id);
        let r = rows_of[upto - 1] as int;
        (
            prev.0.push(OpView::Merge(prev.1[r], names[upto - 1])),
            prev.1.update(r, decimal((id + (upto - from)) as nat)),
        )
    }
}

/// The whole program for blocks with the names `names`, in the order of
/// their lower left corners, that lie in the rows `rows_of` of a canvas of
/// `tot` blocks of `bs` lines a side: the first `fl` columns of blocks are
/// merged block by block and then with each other; what they make is cut
/// into rows; every other block is merged onto its row; and the rows are
/// merged from the lowest up.
pub open spec fn grid_program(
    names: Seq<Seq<u8>>,
    rows_of: Seq<usize>,
    tot: int,
    bs: int,
    fl: int,
) -> Seq<OpView> {
    let count = names.len() as int;
    let base = (count - 1) as nat;
    let id2 = (base + fl * (tot - 1)) as nat;
    let id3 = (id2 + fl - 1) as nat;
    let cols = column_names(tot, base, fl);
    let joined = chain_name(cols[0], id2, (fl - 1) as nat);
    let onto = onto_rows(row_names(joined, tot), names, rows_of, fl * tot, count, id3);
    let id5 = (id3 + (count - fl * tot)) as nat;
    columns(names, tot, base, fl) + chain(cols[0], cols.subrange(1, fl), id2) + row_cuts(
        joined,
        bs,
        tot - 1,
    ) + onto.0 + chain(onto.1[0], onto.1.subrange(1, tot), id5)
}

/// The corner of `a` comes before the corner of `b`, by `x` and then by
/// `y`, or is the same.
pub open spec fn corner_le(a: Region, b: Region) -> bool {
    a.rect.from.x < b.rect.from.x || (a.rect.from.x == b.rect.from.x && a.rect.from.y
        <= b.rect.from.y)
}

/// `order` lists the positions in `regions`, each of them, in the order of
/// the lower left corners of the regions, by `x` and then by `y`.
pub open spec fn is_corner_order(regions: Seq<Region>, order: Seq<usize>) -> bool {
    &&& order.len() == regions.len()
    &&& forall|i: int| 0 <= i < order.len() ==> (#[trigger] order[i]) < regions.len()
    &&& forall|v: usize| v < regions.len() ==> #[trigger] order.contains(v)
    &&& forall|i: int, j: int|
        0 <= i < j < order.len() ==> corner_le(
            regions[(#[trigger] order[i]) as int],
            regions[(#[trigger] order[j]) as int],
        )
}

/// The corner of `a` comes before the corner of `b`, by `x` and then by
/// `y`.
pub open spec fn corner_lt(a: Region, b: Region) -> bool {
    a.rect.from.x < b.rect.from.x || (a.rect.from.x == b.rect.from.x && a.rect.from.y
        < b.rect.from.y)
}

/// The place from `done` up to `j` in `order` of the region whose corner
/// comes first; of regions with one corner, the one at the first place.
pub open spec fn least_at(regions: Seq<Region>, order: Seq<usize>, done: int, j: int) -> int
    decreases j - done,
{
    if j <= done + 1 {
        done
    } else {
        let prev = least_at(regions, order, done, j - 1);
        if corner_lt(regions[order[j - 1] as int], regions[order[prev] as int]) {
            j - 1
        } else {
            prev
        }
    }
}

/// `order` with the entries at `a` and at `b` exchanged.
pub open spec fn exchanged_at(order: Seq<usize>, a: int, b: int) -> Seq<usize> {
    order.update(a, order[b]).update(b, order[a])
}

/// The positions in `regions` after the first `done` places were filled:
/// each place in turn gets the region whose corner comes first among those
/// from it on, in exchange for the region that stood there.
pub open spec fn selected(regions: Seq<Region>, done: int) -> Seq<usize>
    decreases done,
{
    if done <= 0 {
        Seq::new(regions.len(), |i: int| i as usize)
    } else {
        let prev = selected(regions, done - 1);
        exchanged_at(prev, done - 1, least_at(regions, prev, done - 1, prev.len() as int))
    }
}

/// The positions in `regions` in the order of the lower left corners of
/// the regions, by `x` and then by `y`.
pub open spec fn corner_order(regions: Seq<Region>) -> Seq<usize> {
    selected(regions, regions.len() as int)
}

/// The names of the regions in the order `order`.
pub open spec fn sorted_names(regions: Seq<Region>, order: Seq<usize>) -> Seq<Seq<u8>> {
    Seq::new(order.len(), |i: int| regions[order[i] as int].name@)
}

/// The rows of blocks of `bs` lines in which the regions lie, in the order
/// `order`.
pub open spec fn sorted_rows(regions: Seq<Region>, order: Seq<usize>, bs: int) -> Seq<usize> {
    Seq::new(order.len(), |i: int| (regions[order[i] as int].rect.from.y as int / bs) as usize)
}

/// The side of the first region in the order `order`, which is the side of
/// a block if the canvas is divided into square blocks.
pub open spec fn block_side(tc: TestCase, order: Seq<usize>) -> int {
    tc.regions@[order[0] as int].rect.to.x - tc.regions@[order[0] as int].rect.from.x
}

/// The seed regions of `tc` can be a grid of square blocks of which the
/// first `fl` columns are merged first: there are at least two blocks a
/// side and as many columns as rows, the regions can be counted, and every
/// block after the first columns lies in a row that there is.
pub open spec fn grid_fits(tc: TestCase, order: Seq<usize>, fl: int) -> bool {
    let bs = block_side(tc, order);
    let tot = tc.n() / bs;
    &&& tot >= 2
    &&& fl <= tot
    &&& tc.regions@.len() == tot * tot
    &&& tc.regions@.len() <= usize::MAX / 4 - 1
    &&& rows_fit(sorted_rows(tc.regions@, order, bs), fl * tot, tc.regions@.len() as int, tot)
}

/// The program that merges the seed regions of `tc`, taken in the order
/// `order`, the first `fl` columns of blocks first.
pub open spec fn merge_program(tc: TestCase, order: Seq<usize>, fl: int) -> Seq<OpView> {
    let bs = block_side(tc, order);
    grid_program(
        sorted_names(tc.regions@, order),
        sorted_rows(tc.regions@, order, bs),
        tc.n() / bs,
        bs,
        fl,
    )
}

/// No operation of the program fills or swaps regions.
pub open spec fn only_joins(ops: Seq<OpView>) -> bool {
    forall|i: int| 0 <= i < ops.len() ==> !((#[trigger] ops[i]) is Color) && !(ops[i] is Swap)
}

/// A chain holds merges only.
pub proof fn lemma_chain_joins(first: Seq<u8>, names: Seq<Seq<u8>>, id: nat)
    ensures
        only_joins(chain(first, names, id)),
        chain(first, names, id).len() == names.len(),
    decreases names.len(),
{
    if names.len() > 0 {
        lemma_chain_joins(first, names.drop_last(), id);
    }
}

/// The merges of columns are merges only.
pub proof fn lemma_columns_join(names: Seq<Seq<u8>>, tot: int, base: nat, lines: int)
    ensures
        only_joins(columns(names, tot, base, lines)),
    decreases lines,
{
    if lines > 0 {
        lemma_columns_join(names, tot, base, lines - 1);
        lemma_chain_joins(
            names[(lines - 1) * tot],
            names.subrange((lines - 1) * tot + 1, lines * tot),
            (base + (lines - 1) * (tot - 1)) as nat,
        );
    }
}

/// The merges onto rows are merges only.
pub proof fn lemma_onto_rows_join(
    ids: Seq<Seq<u8>>,
    names: Seq<Seq<u8>>,
    rows_of: Seq<usize>,
    from: int,
    upto: int,
    id: nat,
)
    ensures
        only_joins(onto_rows(ids, names, rows_of, from, upto, id).0),
    decreases upto - from,
{
    if upto > from {
        lemma_onto_rows_join(ids, names, rows_of, from, upto - 1, id);
    }
}

/// The whole program fills and swaps nothing.
pub proof fn lemma_grid_program_joins(
    names: Seq<Seq<u8>>,
    rows_of: Seq<usize>,
    tot: int,
    bs: int,
    fl: int,
)
    ensures
        only_joins(grid_program(names, rows_of, tot, bs, fl)),
{
    let count = names.len() as int;
    let base = (count - 1) as nat;
    let id2 = (base + fl * (tot - 1)) as nat;
    let id3 = (id2 + fl - 1) as nat;
    let cols = column_names(tot, base, fl);
    let joined = chain_name(cols[0], id2, (fl - 1) as nat);
    let onto = onto_rows(row_names(joined, tot), names, rows_of, fl * tot, count, id3);
    let id5 = (id3 + (count - fl * tot)) as nat;
    lemma_columns_join(names, tot, base, fl);
    lemma_chain_joins(cols[0], cols.subrange(1, fl), id2);
    lemma_onto_rows_join(row_names(joined, tot), names, rows_of, fl * tot, count, id3);
    lemma_chain_joins(onto.1[0], onto.1.subrange(1, tot), id5);
}

/// Appends to `ops` the merges of a chain: `first` with the name at
/// `from`, what that makes with the next, up to the name before `to`.
/// Gives the name of what the chain makes.
pub fn chain_merges(
    ops: &mut Vec<Op>,
    first: RectId,
    names: &Vec<RectId>,
    from: usize,
    to: usize,
    id: usize,
) -> (last: RectId)
    requires
        from <= to <= names@.len(),
        id + (to - from) <= usize::MAX,
        old(ops)@.len() + (to - from) <= usize::MAX,
    ensures
        ops_view(final(ops)@) == ops_view(old(ops)@) + chain(
            first@,
            rows(names@).subrange(from as int, to as int),
            id as nat,
        ),
        final(ops)@.len() == old(ops)@.len() + (to - from),
        last@ == chain_name(first@, id as nat, (to - from) as nat),
{
    let ghost f = first@;
    let ghost start = ops@;
    let ghost all = rows(names@);
    let mut cur = first;
    let mut k: usize = from;
    proof {
        assert(all.subrange(from as int, from as int) =~= Seq::<Seq<u8>>::empty());
        assert(ops_view(start) + Seq::<OpView>::empty() =~= ops_view(start));
    }
    while k < to
        invariant
            from <= k <= to <= names@.len(),
            id + (to - from) <= usize::MAX,
            all == rows(names@),
            ops@.len() == start.len() + (k - from),
            ops_view(ops@) == ops_view(start) + chain(
                f,
                all.subrange(from as int, k as int),
                id as nat,
            ),
            cur@ == chain_name(f, id as nat, (k - from) as nat),
        decreases to - k,
    {
        let ghost before = ops@;
        let op = Op::Merge(cur, names[k].clone());
        ops.push(op);
        cur = rect_id_from_usize(id + (k - from) + 1);
        proof {
            let part = all.subrange(from as int, k + 1);
            assert(part.drop_last() =~= all.subrange(from as int, k as int));
            assert(part.last() == names@[k as int]@);
            assert(ops_view(ops@) =~= ops_view(before).push(op@));
            assert(ops_view(ops@) =~= ops_view(start) + chain(f, part, id as nat));
        }
        k = k + 1;
    }
    cur
}

/// Appends to `ops` the cuts of the region `cur` into `tot` rows of
/// `block_size` lines, and gives the names of the rows, from the lowest up.
pub fn cut_rows(ops: &mut Vec<Op>, cur: RectId, block_size: usize, tot: usize) -> (row_ids: Vec<
    RectId,
>)
    requires
        tot >= 1,
        tot * block_size <= 65535,
        old(ops)@.len() + tot <= usize::MAX,
    ensures
        ops_view(final(ops)@) == ops_view(old(ops)@) + row_cuts(
            cur@,
            block_size as int,
            tot - 1,
        ),
        final(ops)@.len() == old(ops)@.len() + tot - 1,
        rows(row_ids@) == row_names(cur@, tot as int),
        row_ids@.len() == tot,
{
    let ghost c0 = cur@;
    let ghost start = ops@;
    let mut row_ids: Vec<RectId> = Vec::new();
    let mut cur = cur;
    let mut row: usize = 1;
    proof {
        assert(ops_view(start) + row_cuts(c0, block_size as int, 0) =~= ops_view(start));
    }
    while row < tot
        invariant
            1 <= row <= tot,
            tot * block_size <= 65535,
            row_ids@.len() == row - 1,
            ops@.len() == start.len() + row - 1,
            cur@ == upper(c0, (row - 1) as nat),
            forall|r: int|
                0 <= r < row - 1 ==> (#[trigger] row_ids@[r])@ == sub_key(upper(c0, r as nat), 0),
            ops_view(ops@) == ops_view(start) + row_cuts(c0, block_size as int, row - 1),
        decreases tot - row,
    {
        assert(row * block_size <= tot * block_size) by (nonlinear_arith)
            requires
                row <= tot,
        ;
        let ghost before = ops@;
        let op = Op::CutY(cur.clone(), (row * block_size) as i32);
        ops.push(op);
        row_ids.push(rect_id_sub_key(&cur, 0));
        cur = rect_id_sub_key(&cur, 1);
        proof {
            assert(ops_view(ops@) =~= ops_view(before).push(op@));
            assert(ops_view(ops@) =~= ops_view(start) + row_cuts(
                c0,
                block_size as int,
                row as int,
            ));
        }
        row = row + 1;
    }
    row_ids.push(cur);
    proof {
        assert(rows(row_ids@) =~= row_names(c0, tot as int));
    }
    row_ids
}

/// Appends to `ops` the merges of the blocks from `from` on onto the rows
/// in which they lie, and renames the rows in `row_ids`.  Tells whether
/// every block lies in a row that there is; if one does not, the merges
/// stop at it.
pub fn merge_onto_rows(
    ops: &mut Vec<Op>,
    row_ids: &mut Vec<RectId>,
    names: &Vec<RectId>,
    rows_of: &Vec<usize>,
    from: usize,
    id: usize,
) -> (ok: bool)
    requires
        from <= names@.len(),
        names@.len() == rows_of@.len(),
        id + (names@.len() - from) <= usize::MAX,
        old(ops)@.len() + (names@.len() - from) <= usize::MAX,
    ensures
        ok == rows_fit(rows_of@, from as int, names@.len() as int, old(row_ids)@.len() as int),
        final(row_ids)@.len() == old(row_ids)@.len(),
        ok ==> ops_view(final(ops)@) == ops_view(old(ops)@) + onto_rows(
            rows(old(row_ids)@),
            rows(names@),
            rows_of@,
            from as int,
            names@.len() as int,
            id as nat,
        ).0,
        ok ==> rows(final(row_ids)@) == onto_rows(
            rows(old(row_ids)@),
            rows(names@),
            rows_of@,
            from as int,
            names@.len() as int,
            id as nat,
        ).1,
        ok ==> final(ops)@.len() == old(ops)@.len() + (names@.len() - from),
{
    let ghost start = ops@;
    let ghost ids0 = rows(row_ids@);
    let ghost all = rows(names@);
    let tot = row_ids.len();
    let mut at: usize = from;
    proof {
        assert(ops_view(start) + Seq::<OpView>::empty() =~= ops_view(start));
    }
    while at < names.len()
        invariant
            from <= at <= names@.len(),
            names@.len() == rows_of@.len(),
            id + (names@.len() - from) <= usize::MAX,
            all == rows(names@),
            row_ids@.len() == tot,
            ids0.len() == tot,
            tot == old(row_ids)@.len(),
            start == old(ops)@,
            ids0 == rows(old(row_ids)@),
            ops@.len() == start.len() + (at - from),
            rows_fit(rows_of@, from as int, at as int, tot as int),
            ops_view(ops@) == ops_view(start) + onto_rows(
                ids0,
                all,
                rows_of@,
                from as int,
                at as int,
                id as nat,
            ).0,
            rows(row_ids@) == onto_rows(ids0, all, rows_of@, from as int, at as int, id as nat).1,
        decreases names@.len() - at,
    {
        let row_id = rows_of[at];
        if row_id >= tot {
            assert(!(rows_of@[at as int] < tot));
            return false;
        }
        let ghost before = ops@;
        let ghost before_ids = rows(row_ids@);
        let op = Op::Merge(row_ids[row_id].clone(), names[at].clone());
        ops.push(op);
        row_ids[row_id] = rect_id_from_usize(id + (at - from) + 1);
        proof {
            assert(ops_view(ops@) =~= ops_view(before).push(op@));
            let next = onto_rows(ids0, all, rows_of@, from as int, at + 1, id as nat);
            assert(op@ == OpView::Merge(before_ids[row_id as int], all[at as int]));
            assert(ops_view(ops@) =~= ops_view(start) + next.0);
            assert(rows(row_ids@) =~= next.1);
        }
        at = at + 1;
    }
    true
}

/// The names of the regions in the order `order`, and the rows of blocks
/// of `block_size` lines in which they lie.
pub fn sorted_blocks(regions: &Vec<Region>, order: &Vec<usize>, block_size: usize) -> (res: (
    Vec<RectId>,
    Vec<usize>,
))
    requires
        block_size >= 1,
        forall|i: int| 0 <= i < order@.len() ==> (#[trigger] order@[i]) < regions@.len(),
        forall|i: int| 0 <= i < regions@.len() ==> (#[trigger] regions@[i]).rect.from.y >= 0,
    ensures
        rows(res.0@) == sorted_names(regions@, order@),
        res.1@ == sorted_rows(regions@, order@, block_size as int),
        res.0@.len() == order@.len(),
        res.1@.len() == order@.len(),
{
    let mut names: Vec<RectId> = Vec::new();
    let mut lines: Vec<usize> = Vec::new();
    let mut i: usize = 0;
    while i < order.len()
        invariant
            i <= order@.len(),
            block_size >= 1,
            names@.len() == i,
            lines@.len() == i,
            forall|k: int| 0 <= k < order@.len() ==> (#[trigger] order@[k]) < regions@.len(),
            forall|k: int| 0 <= k < regions@.len() ==> (#[trigger] regions@[k]).rect.from.y >= 0,
            forall|k: int|
                0 <= k < i ==> (#[trigger] names@[k])@ == regions@[order@[k] as int].name@,
            forall|k: int|
                0 <= k < i ==> (#[trigger] lines@[k]) == (regions@[order@[k] as int].rect.from.y as int
                    / (block_size as int)) as usize,
        decreases order@.len() - i,
    {
        let reg = &regions[order[i]];
        assert(regions@[order@[i as int] as int].rect.from.y >= 0);
        names.push(reg.name.clone());
        lines.push(reg.rect.from.y as usize / block_size);
        i = i + 1;
    }
    proof {
        assert(rows(names@) =~= sorted_names(regions@, order@));
        assert(lines@ =~= sorted_rows(regions@, order@, block_size as int));
    }
    (names, lines)
}

} // verus!
