//! The scale that the last sketch needed, kept for the next one.
//!
//! The value is shared by all sketches that are made with one set of
//! parameters, also from several threads at once, and is read and written
//! without any ordering between them. It is a hint: a sketch is checked for
//! completeness whatever scale its first attempt was made with, so nothing
//! is stated of the value that is read.
use std::sync::atomic::AtomicUsize;
use std::sync::atomic::Ordering;
use vstd::prelude::*;

verus! {

/// A hint that starts at `scale`.
pub(crate) fn new_hint(scale: usize) -> AtomicUsize {
    AtomicUsize::new(scale)
}

/// The scale that was stored last, by this thread or another.
pub(crate) fn read_hint(hint: &AtomicUsize) -> usize {
    hint.load(Ordering::Relaxed)
}

/// Stores `scale` for the sketches to come.
pub(crate) fn write_hint(hint: &AtomicUsize, scale: usize) {
    hint.store(scale, Ordering::Relaxed)
}

} // verus!
