//! The regions of a canvas that are alive, by name.

use crate::op::same_bytes;
use crate::rect_id::RectId;
use crate::test_case::Rect;
use vstd::prelude::*;

verus! {

/// A table from names to rectangles.  Its view is the map it stands for.
pub struct Registry {
    names: Vec<RectId>,
    rects: Vec<Rect>,
    map: Ghost<Map<Seq<u8>, Rect>>,
}

impl View for Registry {
    type V = Map<Seq<u8>, Rect>;

    closed spec fn view(&self) -> Map<Seq<u8>, Rect> {
        self.map@
    }
}

impl Registry {
    /// The table lists each name of the map once, with its rectangle.
    pub closed spec fn wf(&self) -> bool {
        &&& self.names@.len() == self.rects@.len()
        &&& forall|i: int|
            0 <= i < self.names@.len() ==> self.map@.contains_key(#[trigger] self.names@[i]@)
                && self.map@[self.names@[i]@] == self.rects@[i]
        &&& forall|k: Seq<u8>| #[trigger]
            self.map@.contains_key(k) ==> exists|i: int|
                0 <= i < self.names@.len() && (#[trigger] self.names@[i])@ == k
        &&& forall|i: int, j: int|
            0 <= i < j < self.names@.len() ==> (#[trigger] self.names@[i])@ != (
            #[trigger] self.names@[j])@
    }

    /// The empty table.
    pub fn new() -> (r: Registry)
        ensures
            r.wf(),
            r@ == Map::<Seq<u8>, Rect>::empty(),
    {
        Registry { names: Vec::new(), rects: Vec::new(), map: Ghost(Map::empty()) }
    }

    /// The row that holds `id`, or the number of rows if none does.
    fn position(&self, id: &RectId) -> (r: usize)
        requires
            self.wf(),
        ensures
            r <= self.names@.len(),
            r < self.names@.len() ==> self.names@[r as int]@ == id@,
            r == self.names@.len() ==> !self@.contains_key(id@),
    {
        let mut i: usize = 0;
        while i < self.names.len()
            invariant
                i <= self.names@.len(),
                forall|j: int| 0 <= j < i ==> (#[trigger] self.names@[j])@ != id@,
            decreases self.names@.len() - i,
        {
            if same_bytes(&self.names[i], id) {
                return i;
            }
            i = i + 1;
        }
        i
    }

    /// The rectangle named `id`, if there is one.
    pub fn get(&self, id: &RectId) -> (r: Option<Rect>)
        requires
            self.wf(),
        ensures
            r == (if self@.contains_key(id@) {
                Some(self@[id@])
            } else {
                None
            }),
    {
        let i = self.position(id);
        if i < self.names.len() {
            Some(self.rects[i])
        } else {
            None
        }
    }

    /// Gives the name `id` to `rect`, in place of what it named before.
    pub fn insert(&mut self, id: RectId, rect: Rect)
        requires
            old(self).wf(),
        ensures
            final(self).wf(),
            final(self)@ == old(self)@.insert(id@, rect),
    {
        let i = self.position(&id);
        let ghost before = *self;
        if i < self.names.len() {
            self.rects[i] = rect;
            self.map = Ghost(before.map@.insert(id@, rect));
            proof {
                assert forall|k: Seq<u8>| #[trigger] self.map@.contains_key(k) implies exists|
                    j: int,
                |
                    0 <= j < self.names@.len() && (#[trigger] self.names@[j])@ == k by {
                    if k == id@ {
                        assert(self.names@[i as int]@ == k);
                    } else {
                        assert(before.map@.contains_key(k));
                    }
                }
            }
        } else {
            self.names.push(id);
            self.rects.push(rect);
            self.map = Ghost(before.map@.insert(id@, rect));
            proof {
                assert forall|k: Seq<u8>| #[trigger] self.map@.contains_key(k) implies exists|
                    j: int,
                |
                    0 <= j < self.names@.len() && (#[trigger] self.names@[j])@ == k by {
                    if k == id@ {
                        assert(self.names@[i as int]@ == k);
                    } else {
                        assert(before.map@.contains_key(k));
                        let j = choose|j: int|
                            0 <= j < before.names@.len() && (#[trigger] before.names@[j])@ == k;
                        assert(self.names@[j]@ == k);
                    }
                }
                assert forall|a: int, b: int| 0 <= a < b < self.names@.len() implies (
                #[trigger] self.names@[a])@ != (#[trigger] self.names@[b])@ by {
                    if b == i {
                        assert(before.map@.contains_key(before.names@[a]@));
                    }
                }
            }
        }
    }

    /// Forgets the name `id`.
    pub fn remove(&mut self, id: &RectId)
        requires
            old(self).wf(),
        ensures
            final(self).wf(),
            final(self)@ == old(self)@.remove(id@),
    {
        let i = self.position(id);
        let ghost before = *self;
        if i < self.names.len() {
            self.names.remove(i);
            self.rects.remove(i);
            self.map = Ghost(before.map@.remove(id@));
            proof {
                assert forall|j: int| 0 <= j < self.names@.len() implies self.map@.contains_key(
                    #[trigger] self.names@[j]@,
                ) && self.map@[self.names@[j]@] == self.rects@[j] by {
                    if j < i {
                        assert(self.names@[j] == before.names@[j]);
                    } else {
                        assert(self.names@[j] == before.names@[j + 1]);
                    }
                }
                assert forall|k: Seq<u8>| #[trigger] self.map@.contains_key(k) implies exists|
                    j: int,
                |
                    0 <= j < self.names@.len() && (#[trigger] self.names@[j])@ == k by {
                    assert(before.map@.contains_key(k));
                    let j = choose|j: int|
                        0 <= j < before.names@.len() && (#[trigger] before.names@[j])@ == k;
                    if j < i {
                        assert(self.names@[j]@ == k);
                    } else {
                        assert(j != i);
                        assert(self.names@[j - 1]@ == k);
                    }
                }
                assert forall|a: int, b: int| 0 <= a < b < self.names@.len() implies (
                #[trigger] self.names@[a])@ != (#[trigger] self.names@[b])@ by {
                    let a0 = if a < i { a } else { a + 1 };
                    let b0 = if b < i { b } else { b + 1 };
                    assert(self.names@[a] == before.names@[a0]);
                    assert(self.names@[b] == before.names@[b0]);
                }
            }
        } else {
            proof {
                assert(before.map@.remove(id@) =~= before.map@);
            }
        }
    }

    /// The rectangles of the table.
    pub fn rects(&self) -> (res: Vec<Rect>)
        requires
            self.wf(),
        ensures
            forall|i: int| 0 <= i < res@.len() ==> self@.values().contains(#[trigger] res@[i]),
            forall|k: Seq<u8>| self@.contains_key(k) ==> res@.contains(#[trigger] self@[k]),
    {
        let mut res: Vec<Rect> = Vec::new();
        let mut i: usize = 0;
        while i < self.rects.len()
            invariant
                i <= self.rects@.len(),
                self.wf(),
                res@ == self.rects@.take(i as int),
            decreases self.rects@.len() - i,
        {
            res.push(self.rects[i]);
            assert(self.rects@.take(i + 1) =~= self.rects@.take(i as int).push(
                self.rects@[i as int],
            ));
            i = i + 1;
        }
        proof {
            assert(self.rects@.take(i as int) =~= self.rects@);
            assert forall|j: int| 0 <= j < res@.len() implies self@.values().contains(
                #[trigger] res@[j],
            ) by {
                assert(self.map@.contains_key(self.names@[j]@));
                assert(self.map@[self.names@[j]@] == res@[j]);
            }
            assert forall|k: Seq<u8>| self@.contains_key(k) implies res@.contains(
                #[trigger] self@[k],
            ) by {
                let j = choose|j: int| 0 <= j < self.names@.len() && (#[trigger] self.names@[j])@ == k;
                assert(res@[j] == self@[k]);
            }
        }
        res
    }

    /// Tells whether the table holds the name `id` for `rect` and nothing
    /// else.
    pub fn is_only(&self, id: &RectId, rect: Rect) -> (r: bool)
        requires
            self.wf(),
        ensures
            r == (self@ == Map::<Seq<u8>, Rect>::empty().insert(id@, rect)),
    {
        let ghost one = Map::<Seq<u8>, Rect>::empty().insert(id@, rect);
        if self.names.len() != 1 {
            proof {
                if self@ == one {
                    if self.names@.len() == 0 {
                        assert(self.map@.contains_key(id@));
                    } else {
                        assert(self.map@.contains_key(self.names@[0]@));
                        assert(self.map@.contains_key(self.names@[1]@));
                        assert(self.names@[0]@ != self.names@[1]@);
                    }
                }
            }
            return false;
        }
        let same_name = same_bytes(&self.names[0], id);
        let same_rect = self.rects[0] == rect;
        proof {
            assert(self.map@.contains_key(self.names@[0]@));
            if same_name && same_rect {
                assert(self.map@ =~= one);
            }
        }
        same_name && same_rect
    }
}

} // verus!
