//! Coarse platform classification used by callers to pick input schemes.

use vstd::prelude::*;

verus! {

/// Whether this build targets a handheld platform with touch input.
/// This library is built for desktop and server targets only, so the
/// answer is fixed.
pub fn is_mobile() -> (r: bool)
    ensures
        r == false,
{
    false
}

/// Whether this build targets a platform with keyboard and mouse input:
/// the opposite of `is_mobile`.
pub fn is_non_mobile() -> (r: bool)
    ensures
        r == true,
{
    !is_mobile()
}

} // verus!
