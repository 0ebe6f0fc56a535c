//! What a list of amounts adds up to.

use vstd::prelude::*;

verus! {

/// What the amounts add up to.
pub open spec fn total(amounts: Seq<nat>) -> nat
    decreases amounts.len(),
{
    if amounts.len() == 0 {
        0
    } else {
        total(amounts.drop_last()) + amounts.last()
    }
}

/// One amount adds up to itself, and two lists to the sum of what each adds up to.
pub proof fn totals_add_up(a: Seq<nat>, b: Seq<nat>, x: nat)
    ensures
        total(Seq::empty()) == 0,
        total(seq![x]) == x,
        total(a + b) == total(a) + total(b),
        total(a.push(x)) == total(a) + x,
    decreases b.len(),
{
    assert(seq![x].drop_last() =~= Seq::<nat>::empty());
    assert(a.push(x).drop_last() =~= a);
    if b.len() == 0 {
        assert(a + b =~= a);
    } else {
        totals_add_up(a, b.drop_last(), x);
        assert((a + b).drop_last() =~= a + b.drop_last());
    }
}

} // verus!
