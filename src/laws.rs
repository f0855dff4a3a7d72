use crate::bitset2d::{chunk_start, BitSet2d};
use vstd::prelude::*;

verus! {

/// One edit of a point set: `(true, x, y)` inserts `(x, y)`, `(false, x, y)`
/// removes it.
pub type Edit = (bool, int, int);

/// The set that a sequence of edits leaves, starting from the empty set.
pub open spec fn applied(edits: Seq<Edit>) -> Set<(int, int)>
    decreases edits.len(),
{
    if edits.len() == 0 {
        Set::empty()
    } else {
        let prev = applied(edits.drop_last());
        let e = edits.last();
        if e.0 {
            prev.insert((e.1, e.2))
        } else {
            prev.remove((e.1, e.2))
        }
    }
}

/// `after` is what the edit `e` makes of `before`.
pub open spec fn edited(before: BitSet2d, after: BitSet2d, e: Edit) -> bool {
    if e.0 {
        after.inserted(before, e.1, e.2)
    } else {
        after.removed(before, e.1, e.2)
    }
}

/// An insertion never shrinks the box: the new box contains the old one and
/// the inserted point.
pub proof fn lemma_insert_keeps_box(before: BitSet2d, after: BitSet2d, x: int, y: int)
    requires
        before.wf(),
        after.inserted(before, x, y),
    ensures
        after.covers(x, y),
        !before.is_empty_box() ==> {
            &&& after.x_lo() <= before.x_lo()
            &&& before.x_hi() <= after.x_hi()
            &&& after.y_lo() <= before.y_lo()
            &&& before.y_hi() <= after.y_hi()
        },
{
    vstd::arithmetic::div_mod::lemma_fundamental_div_mod(x, 64);
    assert(chunk_start(x) <= x < chunk_start(x) + 64);
}

/// A removal keeps the box as it was.
pub proof fn lemma_remove_keeps_box(before: BitSet2d, after: BitSet2d, x: int, y: int)
    requires
        before.wf(),
        after.removed(before, x, y),
    ensures
        after.same_box(before),
{
}

/// A point just inserted is present.
pub proof fn lemma_insert_then_contains(before: BitSet2d, after: BitSet2d, x: int, y: int)
    requires
        before.wf(),
        after.inserted(before, x, y),
    ensures
        after@.contains((x, y)),
{
}

/// A point just removed is absent, and every other point is as it was.
pub proof fn lemma_remove_then_absent(before: BitSet2d, after: BitSet2d, x: int, y: int)
    requires
        before.wf(),
        after.removed(before, x, y),
    ensures
        !after@.contains((x, y)),
        forall|p: (int, int)| p != (x, y) ==> (after@.contains(p) == before@.contains(p)),
{
}

/// Removing a point outside the box changes nothing: not the box, not the
/// word count, not the points.
pub proof fn lemma_remove_outside_box(before: BitSet2d, after: BitSet2d, x: int, y: int)
    requires
        before.wf(),
        !before.covers(x, y),
        after.removed(before, x, y),
    ensures
        after.same_box(before),
        after.words().len() == before.words().len(),
        after@ == before@,
{
    assert(!before@.contains((x, y)));
    assert(after@ =~= before@);
}

/// The X range is always a whole number of chunks: a positive multiple of 64
/// once a point was inserted, and empty before.
pub proof fn lemma_x_range_aligned(g: BitSet2d)
    requires
        g.wf(),
    ensures
        (g.x_hi() - g.x_lo()) % 64 == 0,
        g.is_empty_box() || g.x_hi() - g.x_lo() >= 64,
        g.is_empty_box() ==> g.x_hi() - g.x_lo() == 0,
{
}

proof fn lemma_edits_prefix(states: Seq<BitSet2d>, edits: Seq<Edit>, n: int)
    requires
        states.len() == edits.len() + 1,
        states[0].wf(),
        states[0]@ == Set::<(int, int)>::empty(),
        forall|i: int| 0 <= i < edits.len() ==> edited(states[i], #[trigger] states[i + 1], edits[i]),
        0 <= n <= edits.len(),
    ensures
        states[n].wf(),
        states[n]@ == applied(edits.take(n)),
    decreases n,
{
    if n == 0 {
        assert(edits.take(0) =~= Seq::<Edit>::empty());
    } else {
        lemma_edits_prefix(states, edits, n - 1);
        let k = n - 1;
        assert(edited(states[k], states[k + 1], edits[k]));
        assert(edits.take(n).drop_last() =~= edits.take(n - 1));
    }
}

/// From an empty set, any sequence of insertions and removals (with every
/// growth of the box that they bring) leaves exactly the points inserted and
/// not removed since.
pub proof fn lemma_edits_tracked(states: Seq<BitSet2d>, edits: Seq<Edit>)
    requires
        states.len() == edits.len() + 1,
        states[0].wf(),
        states[0]@ == Set::<(int, int)>::empty(),
        forall|i: int| 0 <= i < edits.len() ==> edited(states[i], #[trigger] states[i + 1], edits[i]),
    ensures
        forall|i: int| 0 <= i < states.len() ==> #[trigger] states[i]@ == applied(edits.take(i)),
        states.last()@ == applied(edits),
{
    assert forall|i: int| 0 <= i < states.len() implies #[trigger] states[i]@ == applied(edits.take(i)) by {
        lemma_edits_prefix(states, edits, i);
    }
    lemma_edits_prefix(states, edits, edits.len() as int);
    assert(edits.take(edits.len() as int) =~= edits);
}

} // verus!
