//! The rule by which a button walks through a list of options.

use vstd::prelude::*;

verus! {

/// The option that follows the one at `current` in a cycle of `count`
/// options. Where the current value is none of the options, the cycle is
/// taken to stand at the first.
pub open spec fn next_in_cycle(current: Option<usize>, count: nat) -> int {
    let at: int = match current {
        Some(i) => i as int,
        None => 0,
    };
    (at + 1) % (count as int)
}

/// The index of the option that a click on the button selects.
pub fn next_option(current: Option<usize>, count: usize) -> (next: usize)
    requires
        count > 0,
        current matches Some(i) ==> i < count,
    ensures
        next == next_in_cycle(current, count as nat),
        next < count,
{
    let at: usize = match current {
        Some(i) => i,
        None => 0,
    };
    if at + 1 == count {
        assert(count as int % count as int == 0) by (nonlinear_arith)
            requires
                count > 0,
        ;
        0
    } else {
        assert((at + 1) % (count as int) == at + 1) by (nonlinear_arith)
            requires
                0 <= at + 1 < count,
        ;
        at + 1
    }
}

} // verus!
