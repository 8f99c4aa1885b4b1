//! Markers for the two ways elements can be handed to an enumeration.
use vstd::prelude::*;

verus! {

/// Tells apart the ways elements can be supplied.
pub trait ImplType {}

/// Elements supplied by an iterator, collected first.
pub struct ImplIterator;

impl ImplType for ImplIterator {}

/// Elements supplied as a slice.
pub struct ImplSlice;

impl ImplType for ImplSlice {}

} // verus!
