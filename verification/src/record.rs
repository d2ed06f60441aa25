//! The shapes of the records that streams carry. The terms themselves come
//! from outside: a stream moves them and never looks inside.

use vstd::prelude::*;

verus! {

/// A triple: subject, predicate and object, in that order.
pub type Triple<T> = [T; 3];

/// A quad: a triple and the name of its graph; `None` is the default graph.
pub type Spog<T> = (Triple<T>, Option<T>);

} // verus!
