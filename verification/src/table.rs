//! Sparse tables: vectors of slots that are taken or free.

use vstd::prelude::*;

verus! {

/// The first free slot of a table, or its length if none is free.
pub open spec fn free_slot<T>(table: Seq<Option<T>>) -> int
    decreases table.len(),
{
    if table.len() == 0 {
        0
    } else {
        let before = free_slot(table.drop_last());
        if before < table.len() - 1 {
            before
        } else if table.last() is None {
            table.len() - 1
        } else {
            table.len() as int
        }
    }
}

/// The table with `item` in slot `at`, which is a slot of the table or the
/// one after its last.
pub open spec fn put<T>(table: Seq<Option<T>>, at: int, item: T) -> Seq<Option<T>> {
    if at < table.len() {
        table.update(at, Some(item))
    } else {
        table.push(Some(item))
    }
}

/// The first free slot is free, and every slot before it is taken.
pub proof fn lemma_free_slot<T>(table: Seq<Option<T>>)
    ensures
        0 <= free_slot(table) <= table.len(),
        free_slot(table) < table.len() ==> table[free_slot(table)] is None,
        forall|i: int| 0 <= i < free_slot(table) ==> (#[trigger] table[i]) is Some,
    decreases table.len(),
{
    if table.len() > 0 {
        lemma_free_slot(table.drop_last());
        assert forall|i: int| 0 <= i < free_slot(table) implies (#[trigger] table[i]) is Some by {
            if i < table.len() - 1 {
                assert(table.drop_last()[i] == table[i]);
            }
        }
    }
}

/// The first free slot of a table, or its length if none is free.
pub fn first_free<T>(table: &Vec<Option<T>>) -> (slot: usize)
    ensures
        slot == free_slot(table@),
        slot <= table@.len(),
{
    let n = table.len();
    let mut slot: usize = 0;
    while slot < n
        invariant
            n == table@.len(),
            slot <= n,
            forall|j: int| 0 <= j < slot ==> table@[j] is Some,
        decreases n - slot,
    {
        if table[slot].is_none() {
            proof {
                lemma_free_slot(table@);
                let f = free_slot(table@);
                if f < slot {
                    assert(table@[f] is Some);
                } else if slot < f {
                    assert(table@[slot as int] is Some);
                }
            }
            return slot;
        }
        slot = slot + 1;
    }
    proof {
        lemma_free_slot(table@);
        let f = free_slot(table@);
        if f < n {
            assert(table@[f] is Some);
        }
    }
    n
}

/// Tables whose slots are taken alike have the same first free slot.
pub proof fn lemma_same_free_slot<T>(a: Seq<Option<T>>, b: Seq<Option<T>>)
    requires
        a.len() == b.len(),
        forall|i: int| 0 <= i < a.len() ==> ((#[trigger] a[i]) is Some) == (b[i] is Some),
    ensures
        free_slot(a) == free_slot(b),
    decreases a.len(),
{
    if a.len() > 0 {
        assert forall|i: int| 0 <= i < a.drop_last().len() implies ((
        #[trigger] a.drop_last()[i]) is Some) == (b.drop_last()[i] is Some) by {
            assert(a[i] is Some == b[i] is Some);
        }
        lemma_same_free_slot(a.drop_last(), b.drop_last());
    }
}

/// A slot that is taken and freed again is the first free slot once more.
pub proof fn lemma_put_then_free<T>(table: Seq<Option<T>>, item: T)
    ensures
        free_slot(put(table, free_slot(table), item).update(free_slot(table), None)) == free_slot(
            table,
        ),
{
    let at = free_slot(table);
    let after = put(table, at, item).update(at, None);
    lemma_free_slot(table);
    lemma_free_slot(after);
    let next = free_slot(after);
    assert(after[at] is None);
    if next < at {
        assert(after[next] == table[next]);
    }
}

/// Slot `at` of the table is taken.
pub open spec fn taken<T>(table: Seq<Option<T>>, at: int) -> bool {
    0 <= at < table.len() && table[at] is Some
}

} // verus!
