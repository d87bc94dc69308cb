//! What a trace element must offer: it is compared, hashed, copied and printed,
//! and nothing else is ever asked of it.

use vstd::prelude::*;
use vstd::std_specs::hash::obeys_key_model;
use std::fmt::{Debug, Display};
use std::hash::Hash;

verus! {

/// The capabilities of an identifier. No arithmetic is done on identifiers:
/// all arithmetic in this crate is on positions and counts.
pub trait ObjIdTraits: Hash + Eq + PartialEq + Clone + Debug + Display {

}

impl ObjIdTraits for usize {

}

impl ObjIdTraits for u128 {

}

impl ObjIdTraits for u64 {

}

impl ObjIdTraits for u32 {

}

impl ObjIdTraits for u16 {

}

impl ObjIdTraits for u8 {

}

impl ObjIdTraits for i128 {

}

impl ObjIdTraits for i64 {

}

impl ObjIdTraits for i32 {

}

impl ObjIdTraits for i16 {

}

impl ObjIdTraits for i8 {

}

impl ObjIdTraits for &str {

}

impl ObjIdTraits for String {

}

/// Whether the executable operations of `ObjId` agree with mathematical
/// equality: `==` and the hash tell two identifiers apart exactly when they
/// differ, and a clone equals what it was cloned from.
///
/// The analyses key their tables by identifier and copy identifiers into them,
/// so they ask this of the identifier type. It holds of the integer types.
pub open spec fn obeys_id_contract<ObjId: ObjIdTraits>() -> bool {
    &&& obeys_key_model::<ObjId>()
    &&& forall|a: ObjId, b: ObjId| #[trigger] cloned::<ObjId>(a, b) ==> a == b
}

} // verus!
