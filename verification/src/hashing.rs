use std::collections::hash_map::DefaultHasher;
use std::hash::Hasher;
use vstd::bytes::{spec_u32_to_le_bytes, u32_to_le_bytes};
use vstd::prelude::*;
use vstd::std_specs::hash::DefaultHasherAdditionalSpecFns;

verus! {

/// The key under which the position table files a value: the digest that the default hasher
/// gives after one write of the value's four bytes, least significant first.
pub open spec fn key_of(value: i32) -> u64 {
    DefaultHasher::spec_finish(seq![spec_u32_to_le_bytes(value as u32)])
}

/// Hashes one element. Equal elements always get equal keys; different elements may collide.
pub fn hash_value(element: &i32) -> (key: u64)
    ensures
        key == key_of(*element),
{
    let mut hasher = DefaultHasher::new();
    let word: u32 = #[verifier::truncate] (*element as u32);
    let bytes = u32_to_le_bytes(word);
    hasher.write(bytes.as_slice());
    proof {
        assert(hasher@ =~= seq![spec_u32_to_le_bytes(*element as u32)]);
    }
    hasher.finish()
}

} // verus!
