//! Small conversion helpers.

use vstd::prelude::*;
use vstd::string::StringSliceAdditionalSpecFns;

verus! {

/// Views a path, given in its text form, as the bytes of its UTF-8
/// encoding, without allocating. Useful when handing paths to byte-level
/// consumers.
pub fn path_to_bytes(path: &str) -> (r: &[u8])
    ensures
        r@ == path.spec_bytes(),
{
    path.as_bytes()
}

} // verus!
