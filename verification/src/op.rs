//! The operations of the painting language.

use crate::color::Color;
use crate::rect_id::RectId;
use crate::utils::Point;
use vstd::prelude::*;

verus! {

/// One operation of a program.
#[derive(Clone, Debug)]
pub enum Op {
    /// Cuts a region at a point into four parts, numbered from the
    /// bottom-left one counter-clockwise.
    CutPoint(RectId, Point),
    /// Fills a region with a colour.
    Color(RectId, Color),
    /// Cuts a region along a horizontal line into a lower and an upper part.
    CutY(RectId, i32),
    /// Cuts a region along a vertical line into a left and a right part.
    CutX(RectId, i32),
    /// Joins two regions into one that gets a fresh number as its name.
    Merge(RectId, RectId),
    /// Exchanges the pixels of two regions of the same shape.
    Swap(RectId, RectId),
}

/// An operation with its names as byte sequences.
pub enum OpView {
    CutPoint(Seq<u8>, Point),
    Color(Seq<u8>, Color),
    CutY(Seq<u8>, i32),
    CutX(Seq<u8>, i32),
    Merge(Seq<u8>, Seq<u8>),
    Swap(Seq<u8>, Seq<u8>),
}

impl View for Op {
    type V = OpView;

    open spec fn view(&self) -> OpView {
        match *self {
            Op::CutPoint(id, p) => OpView::CutPoint(id@, p),
            Op::Color(id, c) => OpView::Color(id@, c),
            Op::CutY(id, y) => OpView::CutY(id@, y),
            Op::CutX(id, x) => OpView::CutX(id@, x),
            Op::Merge(a, b) => OpView::Merge(a@, b@),
            Op::Swap(a, b) => OpView::Swap(a@, b@),
        }
    }
}

/// The views of the operations of a program, in order.
pub open spec fn ops_view(ops: Seq<Op>) -> Seq<OpView> {
    Seq::new(ops.len(), |i: int| ops[i]@)
}

/// Tells whether two names hold the same bytes.
pub fn same_bytes(a: &Vec<u8>, b: &Vec<u8>) -> (r: bool)
    ensures
        r == (a@ == b@),
{
    if a.len() != b.len() {
        return false;
    }
    let mut i: usize = 0;
    while i < a.len()
        invariant
            i <= a.len(),
            a.len() == b.len(),
            forall|j: int| 0 <= j < i ==> a@[j] == b@[j],
        decreases a.len() - i,
    {
        if a[i] != b[i] {
            return false;
        }
        i = i + 1;
    }
    assert(a@ =~= b@);
    true
}

impl Op {
    /// A copy of the operation.
    pub fn duplicate(&self) -> (r: Op)
        ensures
            r@ == self@,
    {
        match self {
            Op::CutPoint(id, p) => Op::CutPoint(id.clone(), *p),
            Op::Color(id, c) => Op::Color(id.clone(), *c),
            Op::CutY(id, y) => Op::CutY(id.clone(), *y),
            Op::CutX(id, x) => Op::CutX(id.clone(), *x),
            Op::Merge(a, b) => Op::Merge(a.clone(), b.clone()),
            Op::Swap(a, b) => Op::Swap(a.clone(), b.clone()),
        }
    }
}

/// A copy of the program `ops`.
pub fn copy_ops(ops: &[Op]) -> (res: Vec<Op>)
    ensures
        ops_view(res@) == ops_view(ops@),
        res@.len() == ops@.len(),
{
    let mut res: Vec<Op> = Vec::new();
    let mut i: usize = 0;
    while i < ops.len()
        invariant
            i <= ops@.len(),
            res@.len() == i,
            forall|k: int| 0 <= k < i ==> (#[trigger] res@[k])@ == ops@[k]@,
        decreases ops@.len() - i,
    {
        res.push(ops[i].duplicate());
        i = i + 1;
    }
    assert(ops_view(res@) =~= ops_view(ops@));
    res
}

/// Appends copies of the operations `more` to `ops`.
pub fn extend_ops(ops: &mut Vec<Op>, more: &Vec<Op>)
    ensures
        ops_view(final(ops)@) == ops_view(old(ops)@) + ops_view(more@),
{
    let mut i: usize = 0;
    assert(ops_view(more@).take(0) =~= Seq::<OpView>::empty());
    assert(ops_view(ops@) + Seq::<OpView>::empty() =~= ops_view(ops@));
    while i < more.len()
        invariant
            i <= more.len(),
            ops_view(ops@) == ops_view(old(ops)@) + ops_view(more@).take(i as int),
        decreases more.len() - i,
    {
        let ghost before = ops@;
        let op = more[i].duplicate();
        ops.push(op);
        proof {
            assert(ops_view(ops@) =~= ops_view(before).push(more@[i as int]@));
            assert(ops_view(more@).take(i + 1) =~= ops_view(more@).take(i as int).push(
                more@[i as int]@,
            ));
            assert(ops_view(ops@) =~= ops_view(old(ops)@) + ops_view(more@).take(i + 1));
        }
        i = i + 1;
    }
    assert(ops_view(more@).take(i as int) =~= ops_view(more@));
}

} // verus!
