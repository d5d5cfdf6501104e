use vstd::prelude::*;

verus! {

/// Index of a slot in the mediator table: the opaque owner reference that
/// a heap stores beside each priority and reports whenever the entry moves.
#[derive(Copy, Clone, PartialEq, Eq, Structural, Debug, Hash)]
pub struct MediatorIndex(pub usize);

} // verus!
