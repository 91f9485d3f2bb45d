//! Recycling allocator for process and thread identifiers.

use vstd::prelude::*;

verus! {

/// Hands out identifiers, always the smallest one not in use.
///
/// Identifiers below the watermark `current` are in use unless they sit in
/// `recycled`; everything from the watermark up is free.
pub struct RecycleAllocator {
    current: usize,
    recycled: Vec<usize>,
}

impl RecycleAllocator {
    /// Every recycled identifier was handed out before, and none is listed twice.
    pub closed spec fn wf(&self) -> bool {
        &&& forall|i: int| 0 <= i < self.recycled@.len() ==> self.recycled@[i] < self.current
        &&& self.recycled@.no_duplicates()
    }

    /// Whether `id` is free to be handed out.
    pub closed spec fn is_free(&self, id: nat) -> bool {
        id >= self.current || exists|i: int|
            0 <= i < self.recycled@.len() && #[trigger] self.recycled@[i] == id
    }

    /// The identifiers currently in use.
    pub open spec fn allocated(&self) -> Set<nat> {
        Set::new(|id: nat| !self.is_free(id))
    }

    /// No identifier that fits the machine word is left.
    pub open spec fn exhausted(&self) -> bool {
        forall|id: nat| id < usize::MAX ==> !self.is_free(id)
    }

    /// A fresh allocator: every identifier is free.
    pub fn new() -> (r: Self)
        ensures
            r.wf(),
            forall|id: nat| r.is_free(id),
    {
        RecycleAllocator { current: 0, recycled: Vec::new() }
    }

    /// Tells whether `alloc_id` has anything left to hand out.
    pub fn is_exhausted(&self) -> (b: bool)
        requires
            self.wf(),
        ensures
            b == self.exhausted(),
    {
        let b = self.recycled.len() == 0 && self.current == usize::MAX;
        proof {
            if self.recycled@.len() > 0 {
                let w = self.recycled@[0];
                assert(self.is_free(w as nat));
            } else if self.current < usize::MAX {
                assert(self.is_free(self.current as nat));
            }
        }
        b
    }

    /// Hands out the smallest free identifier.
    pub fn alloc_id(&mut self) -> (id: usize)
        requires
            old(self).wf(),
            !old(self).exhausted(),
        ensures
            final(self).wf(),
            old(self).is_free(id as nat),
            forall|j: nat| j < id ==> !old(self).is_free(j),
            forall|j: nat| final(self).is_free(j) == (old(self).is_free(j) && j != id),
    {
        let n = self.recycled.len();
        if n == 0 {
            let id = self.current;
            proof {
                if self.current == usize::MAX {
                    assert forall|j: nat| j < usize::MAX implies !self.is_free(j) by {}
                }
            }
            self.current = self.current + 1;
            id
        } else {
            let mut best: usize = 0;
            let mut i: usize = 1;
            while i < n
                invariant
                    n == self.recycled@.len(),
                    0 <= best < i <= n,
                    forall|k: int| 0 <= k < i ==> self.recycled@[best as int] <= self.recycled@[k],
                decreases n - i,
            {
                if self.recycled[i] < self.recycled[best] {
                    best = i;
                }
                i = i + 1;
            }
            let ghost before = self.recycled@;
            let id = self.recycled.remove(best);
            proof {
                assert(before[best as int] == id);
                assert forall|a: int, b: int|
                    0 <= a < self.recycled@.len() && 0 <= b < self.recycled@.len() && a
                        != b implies self.recycled@[a] != self.recycled@[b] by {
                    let a0 = if a < best { a } else { a + 1 };
                    let b0 = if b < best { b } else { b + 1 };
                    assert(self.recycled@[a] == before[a0]);
                    assert(self.recycled@[b] == before[b0]);
                }
                assert forall|j: nat|
                    self.is_free(j) == (old(self).is_free(j) && j != id) by {
                    if old(self).is_free(j) && j != id && j < self.current {
                        let k = choose|k: int| 0 <= k < before.len() && before[k] == j;
                        let k1 = if k < best { k } else { k - 1 };
                        assert(self.recycled@[k1] == j);
                    }
                    if self.is_free(j) && j < self.current {
                        let k = choose|k: int|
                            0 <= k < self.recycled@.len() && self.recycled@[k] == j;
                        let k0 = if k < best { k } else { k + 1 };
                        assert(before[k0] == j);
                    }
                }
                assert forall|j: nat| j < id implies !old(self).is_free(j) by {
                    if old(self).is_free(j) {
                        let k = choose|k: int| 0 <= k < before.len() && before[k] == j;
                        assert(before[best as int] <= before[k]);
                    }
                }
            }
            id
        }
    }

    /// Takes back an identifier that is in use.
    pub fn dealloc_id(&mut self, id: usize)
        requires
            old(self).wf(),
            !old(self).is_free(id as nat),
        ensures
            final(self).wf(),
            forall|j: nat| final(self).is_free(j) == (old(self).is_free(j) || j == id),
    {
        let ghost before = self.recycled@;
        self.recycled.push(id);
        proof {
            assert(self.recycled@[before.len() as int] == id);
            assert forall|j: nat| self.is_free(j) == (old(self).is_free(j) || j == id) by {
                if old(self).is_free(j) && j < self.current {
                    let k = choose|k: int| 0 <= k < before.len() && before[k] == j;
                    assert(self.recycled@[k] == j);
                }
                if self.is_free(j) && j < self.current && j != id {
                    let k = choose|k: int|
                        0 <= k < self.recycled@.len() && self.recycled@[k] == j;
                    assert(before[k] == j);
                }
            }
            assert forall|a: int, b: int|
                0 <= a < self.recycled@.len() && 0 <= b < self.recycled@.len() && a
                    != b implies self.recycled@[a] != self.recycled@[b] by {
                if a < before.len() {
                    assert(before[a] == self.recycled@[a]);
                }
                if b < before.len() {
                    assert(before[b] == self.recycled@[b]);
                }
            }
        }
    }
}

/// Releasing the identifier that was just handed out restores the allocator's
/// set of free identifiers.
pub proof fn lemma_alloc_dealloc_restores(
    before: RecycleAllocator,
    mid: RecycleAllocator,
    after: RecycleAllocator,
    id: usize,
)
    requires
        before.is_free(id as nat),
        forall|j: nat| mid.is_free(j) == (before.is_free(j) && j != id),
        forall|j: nat| after.is_free(j) == (mid.is_free(j) || j == id),
    ensures
        forall|j: nat| after.is_free(j) == before.is_free(j),
        after.allocated() == before.allocated(),
{
    assert(after.allocated() =~= before.allocated());
}

} // verus!
