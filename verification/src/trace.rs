//! A trace as the analyses need it: held in memory, so that it can be read
//! more than once, forwards and backwards.

use vstd::prelude::*;
use vstd::std_specs::iter::IteratorSpec;
use crate::ident::ObjIdTraits;

verus! {

/// Reads a sequence of accesses that can be produced once into a buffer that
/// can be read again and again. The sequence is read to its end before
/// anything is returned.
pub fn materialize<ObjId: ObjIdTraits>(trace: impl Iterator<Item = ObjId>) -> (buffer: Vec<ObjId>)
    requires
        trace.obeys_prophetic_iter_laws(),
        trace.decrease() is Some,
    ensures
        buffer@ == trace.remaining(),
{
    let mut trace = trace;
    let mut buffer: Vec<ObjId> = Vec::new();
    let ghost whole = trace.remaining();
    loop
        invariant_except_break
            trace.obeys_prophetic_iter_laws(),
            trace.decrease() is Some,
            buffer@ + trace.remaining() == whole,
        ensures
            buffer@ == whole,
        decreases trace.decrease()->0,
    {
        match trace.next() {
            Some(access) => {
                let ghost rest = trace.remaining();
                buffer.push(access);
                assert(buffer@ + rest =~= whole);
            },
            None => {
                assert(buffer@ + trace.remaining() =~= buffer@);
                break ;
            },
        }
    }
    buffer
}

} // verus!
