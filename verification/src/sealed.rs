//! The mark that keeps a trait to the types of this crate.

use vstd::prelude::*;

verus! {

/// Stops a type outside this crate from claiming a stored type mapping.
pub trait Sealed {

}

} // verus!
