use vstd::prelude::*;

verus! {

/// The larger of two signed machine integers.
pub fn max(a: isize, b: isize) -> (r: isize)
    ensures
        r == if a > b { a } else { b },
{
    if a > b { a } else { b }
}

/// The smaller of two signed machine integers.
pub fn min(a: isize, b: isize) -> (r: isize)
    ensures
        r == if a < b { a } else { b },
{
    if a < b { a } else { b }
}

} // verus!
