use vstd::prelude::*;

verus! {

/// The variable number of a literal: its absolute value, as an `int`.
pub open spec fn var_of(literal: i32) -> int {
    if literal < 0 { -(literal as int) } else { literal as int }
}

/// Maps a literal to the index of its variable: variable `n` (literal `n` or `-n`)
/// has index `n - 1`. The literal `0` maps to `usize::MAX`, as `-1` cast to `usize` does.
pub fn lit2idx(literal: i32) -> (idx: usize)
    requires
        literal != i32::MIN,
    ensures
        literal != 0 ==> idx == var_of(literal) - 1,
        literal == 0 ==> idx == usize::MAX,
{
    if literal == 0 {
        usize::MAX
    } else if literal < 0 {
        (-literal - 1) as usize
    } else {
        (literal - 1) as usize
    }
}

/// The absolute value of a literal: the number of its variable.
pub fn lit_abs(literal: i32) -> (n: i32)
    requires
        literal != i32::MIN,
    ensures
        n == var_of(literal),
        n >= 0,
{
    if literal < 0 { -literal } else { literal }
}

/// The sign of an integer: `1`, `0` or `-1`.
pub fn signum(x: i32) -> (s: i32)
    ensures
        s == (if x > 0 { 1i32 } else if x < 0 { -1i32 } else { 0i32 }),
{
    if x > 0 { 1 } else if x < 0 { -1 } else { 0 }
}

} // verus!
