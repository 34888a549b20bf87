use vstd::prelude::*;

verus! {

/// A set of triangle indices below a fixed bound, with membership marks for
/// deduplication and the list of indices in the order they were added.
pub struct TriangleSet {
    marks: Vec<bool>,
    items: Vec<usize>,
}

impl TriangleSet {
    /// The indices in the set.
    pub closed spec fn view(&self) -> Set<int> {
        Set::new(|i: int| 0 <= i < self.marks.len() && self.marks@[i])
    }

    /// The bound on the indices.
    pub closed spec fn bound(&self) -> nat {
        self.marks.len() as nat
    }

    pub closed spec fn wf(&self) -> bool {
        &&& forall|q: int| 0 <= q < self.items.len() ==> #[trigger] self.items@[q] < self.marks.len()
        &&& forall|i: int|
            0 <= i < self.marks.len() && #[trigger] self.marks@[i] ==> self.items@.contains(i as usize)
    }

    /// Every index in the set is below the bound.
    pub proof fn lemma_bounded(&self)
        ensures
            forall|i: int| #[trigger] self@.contains(i) ==> 0 <= i < self.bound(),
    {
    }

    /// An empty set of indices below `bound`.
    pub fn new(bound: usize) -> (r: Self)
        ensures
            r.wf(),
            r.bound() == bound,
            r@ == Set::<int>::empty(),
    {
        let r = TriangleSet { marks: vec![false; bound], items: Vec::new() };
        assert(r@ =~= Set::<int>::empty());
        r
    }

    pub fn insert(&mut self, i: usize)
        requires
            old(self).wf(),
            i < old(self).bound(),
        ensures
            final(self).wf(),
            final(self).bound() == old(self).bound(),
            final(self)@ == old(self)@.insert(i as int),
    {
        if !self.marks[i] {
            self.marks.set(i, true);
            self.items.push(i);
        }
        proof {
            assert forall|q: int| 0 <= q < self.items.len() implies #[trigger] self.items@[q]
                < self.marks.len() by {
                if q < old(self).items.len() {
                    assert(old(self).items@[q] < old(self).marks.len());
                }
            }
            assert forall|m: int|
                0 <= m < self.marks.len() && #[trigger] self.marks@[m] implies self.items@.contains(
                m as usize,
            ) by {
                if m != i {
                    assert(old(self).marks@[m]);
                    let q = choose|q: int| 0 <= q < old(self).items.len() && old(self).items@[q] == m as usize;
                    assert(self.items@[q] == m as usize);
                } else if old(self).marks@[m] {
                    let q = choose|q: int| 0 <= q < old(self).items.len() && old(self).items@[q] == m as usize;
                    assert(self.items@[q] == m as usize);
                } else {
                    assert(self.items@[self.items.len() - 1] == i);
                }
            }
            assert(self@ =~= old(self)@.insert(i as int));
        }
    }

    pub fn remove(&mut self, i: usize)
        requires
            old(self).wf(),
            i < old(self).bound(),
        ensures
            final(self).wf(),
            final(self).bound() == old(self).bound(),
            final(self)@ == old(self)@.remove(i as int),
    {
        self.marks.set(i, false);
        proof {
            assert forall|m: int|
                0 <= m < self.marks.len() && #[trigger] self.marks@[m] implies self.items@.contains(
                m as usize,
            ) by {
                assert(old(self).marks@[m]);
            }
            assert(self@ =~= old(self)@.remove(i as int));
        }
    }

    /// Moves every index of the set, once each, to the end of `buffer`, and
    /// leaves the set empty.
    pub fn drain_into(&mut self, buffer: &mut Vec<usize>)
        requires
            old(self).wf(),
        ensures
            final(self).wf(),
            final(self).bound() == old(self).bound(),
            final(self)@ == Set::<int>::empty(),
            final(buffer)@.subrange(0, old(buffer).len() as int) == old(buffer)@,
            forall|q: int|
                old(buffer).len() <= q < final(buffer).len() ==> old(self)@.contains(
                    #[trigger] final(buffer)@[q] as int,
                ) && final(buffer)@[q] < old(self).bound(),
            forall|i: int| old(self)@.contains(i) ==> final(buffer)@.subrange(
                old(buffer).len() as int,
                final(buffer).len() as int,
            ).contains(i as usize),
            final(buffer)@.subrange(old(buffer).len() as int, final(buffer).len() as int).no_duplicates(),
    {
        let ghost start = buffer.len() as int;
        let ghost marks0 = self.marks@;
        let mut q: usize = 0;
        assert(self.items@.subrange(0, self.items.len() as int) =~= self.items@);
        while q < self.items.len()
            invariant
                self.wf(),
                0 <= q <= self.items.len(),
                self.items@ == old(self).items@,
                self.marks.len() == marks0.len(),
                start == old(buffer).len(),
                buffer@.subrange(0, start) == old(buffer)@,
                buffer.len() >= start,
                forall|m: int| 0 <= m < marks0.len() && #[trigger] self.marks@[m] ==> marks0[m],
                forall|m: int|
                    0 <= m < marks0.len() && #[trigger] marks0[m] && !self.marks@[m]
                        ==> buffer@.subrange(start, buffer.len() as int).contains(m as usize),
                forall|m: int|
                    0 <= m < marks0.len() && #[trigger] self.marks@[m] ==> self.items@.subrange(
                        q as int,
                        self.items.len() as int,
                    ).contains(m as usize),
                forall|p: int|
                    start <= p < buffer.len() ==> #[trigger] buffer@[p] < marks0.len() && marks0[buffer@[p] as int]
                        && !self.marks@[buffer@[p] as int],
                buffer@.subrange(start, buffer.len() as int).no_duplicates(),
            decreases self.items.len() - q,
        {
            let v = self.items[q];
            assert(v < self.marks.len());
            if self.marks[v] {
                let ghost before = buffer@;
                self.marks.set(v, false);
                buffer.push(v);
                proof {
                    assert(buffer@.subrange(0, start) =~= before.subrange(0, start));
                    assert(buffer@.subrange(start, buffer.len() as int) =~= before.subrange(
                        start,
                        before.len() as int,
                    ).push(v));
                    assert forall|m: int|
                        0 <= m < marks0.len() && #[trigger] marks0[m] && !self.marks@[m]
                            implies buffer@.subrange(start, buffer.len() as int).contains(m as usize) by {
                        if m == v as int {
                            assert(buffer@.subrange(start, buffer.len() as int)[buffer.len() - 1 - start] == v);
                        } else {
                            let tail = before.subrange(start, before.len() as int);
                            let w = choose|w: int| 0 <= w < tail.len() && #[trigger] tail[w] == m as usize;
                            assert(buffer@.subrange(start, buffer.len() as int)[w] == m as usize);
                        }
                    }
                }
            }
            q = q + 1;
            proof {
                assert forall|m: int|
                    0 <= m < marks0.len() && #[trigger] self.marks@[m] implies self.items@.subrange(
                        q as int,
                        self.items.len() as int,
                    ).contains(m as usize) by {
                    let prev = q as int - 1;
                    let tail = self.items@.subrange(prev, self.items.len() as int);
                    let w = choose|w: int| 0 <= w < tail.len() && #[trigger] tail[w] == m as usize;
                    if w == 0 {
                        assert(self.items@[prev] == v);
                    } else {
                        assert(self.items@.subrange(q as int, self.items.len() as int)[w - 1] == m as usize);
                    }
                }
            }
        }
        self.items.clear();
        proof {
            assert forall|m: int| 0 <= m < self.marks.len() implies !#[trigger] self.marks@[m] by {
                if self.marks@[m] {
                    assert(old(self).items@.subrange(q as int, old(self).items.len() as int).len() == 0);
                }
            }
            assert(self@ =~= Set::<int>::empty());
        }
    }
}

} // verus!
