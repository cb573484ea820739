//! A dependency-graph builder that turns typed work items with declared
//! happens-before edges into a validated, cycle-free schedule grouped into
//! parallel-safe tiers, together with the small callback-port plumbing that an
//! execution layer can use to move values between state holders.

pub mod comms;
pub mod graph;
pub mod gro;
pub mod ross;
pub mod sync;

use vstd::prelude::*;

verus! {

/// State-update rule of the two-party handshake demo: the new state is a copy
/// of the input.
pub fn reducer(input: &String, state: &mut String)
    ensures
        *final(state) == *input,
{
    *state = input.clone();
}

} // verus!
