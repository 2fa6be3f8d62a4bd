//! Giving back unused capacity.

use std::collections::HashMap;
use vstd::prelude::*;

verus! {

/// `Vec::shrink_to_fit` of the standard library: it may lower the capacity
/// of the vector and leaves its elements as they are.
#[verifier::external_body]
pub(crate) fn shrink_vec<T>(v: &mut Vec<T>)
    ensures
        final(v)@ == old(v)@,
{
    v.shrink_to_fit();
}

/// `HashMap::shrink_to_fit` of the standard library: it may lower the
/// capacity of the map and leaves its entries as they are.
#[verifier::external_body]
pub(crate) fn shrink_map(m: &mut HashMap<u64, usize>)
    ensures
        final(m)@ == old(m)@,
{
    m.shrink_to_fit();
}

} // verus!
