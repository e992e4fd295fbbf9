use vstd::prelude::*;

verus! {

/// Horizontal direction (-1, 0 or 1) that the held movement keys ask for:
/// each held key adds a unit step along its axis, and the sum, which has
/// length 0 or 1, is its own normalisation.
pub open spec fn direction_of(left: bool, right: bool) -> int {
    (if right { 1int } else { 0int }) - (if left { 1int } else { 0int })
}

/// Samples the two movement keys into a normalised horizontal direction.
pub fn input_direction(left: bool, right: bool) -> (d: i8)
    ensures
        d as int == direction_of(left, right),
        -1 <= d <= 1,
{
    let mut d: i8 = 0;
    if left {
        d = d - 1;
    }
    if right {
        d = d + 1;
    }
    d
}

} // verus!
