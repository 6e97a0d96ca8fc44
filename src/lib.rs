//! An arithmetic-circuit gadget for the Bowe-Hopwood-Pedersen hash over the
//! Edwards BLS12-377 curve, with the values it computes proved against a
//! model over integers modulo the field's prime.
use vstd::prelude::*;

pub mod bhp;
pub mod circuit;
pub mod field;
pub mod group;

verus! {

} // verus!
