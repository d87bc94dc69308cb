//! The two-valued outcome of one simulated access.

use vstd::prelude::*;
use vstd::std_specs::convert::FromSpecImpl;

verus! {

/// What a simulator reports for one access.
#[derive(Clone, Copy, Debug, PartialEq, Eq, Structural)]
pub enum AccessResult {
    Hit,
    Miss,
}

impl AccessResult {
    /// The outcome as a truth value: a hit is `true`.
    pub open spec fn is_hit(self) -> bool {
        self == AccessResult::Hit
    }
}

impl From<AccessResult> for bool {
    fn from(value: AccessResult) -> (hit: bool)
        ensures
            hit == value.is_hit(),
    {
        match value {
            AccessResult::Hit => true,
            AccessResult::Miss => false,
        }
    }
}

impl FromSpecImpl<AccessResult> for bool {
    open spec fn obeys_from_spec() -> bool {
        true
    }

    open spec fn from_spec(value: AccessResult) -> bool {
        value.is_hit()
    }
}

impl From<bool> for AccessResult {
    fn from(value: bool) -> (outcome: AccessResult)
        ensures
            outcome.is_hit() == value,
    {
        if value {
            AccessResult::Hit
        } else {
            AccessResult::Miss
        }
    }
}

impl FromSpecImpl<bool> for AccessResult {
    open spec fn obeys_from_spec() -> bool {
        true
    }

    open spec fn from_spec(value: bool) -> AccessResult {
        if value {
            AccessResult::Hit
        } else {
            AccessResult::Miss
        }
    }
}

} // verus!
