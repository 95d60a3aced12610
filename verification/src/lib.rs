//! Text indexes over byte strings: suffix arrays, LCP arrays and the queries
//! answered with them.
pub mod suffix_order;
pub mod sorting;
pub mod prefix_double;
pub mod construct_index;
pub mod queries;
pub mod parser;
pub mod sais_spec;
pub mod sais_byte_spec;
pub mod sais_u8;
pub mod sais_i32;
pub mod sais_laws;

use vstd::prelude::*;

verus! {

/// An entry point that does nothing.
pub fn test() {
}

} // verus!
