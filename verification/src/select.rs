//! Selection policies: which of a fragment's ranked candidates is applied,
//! if any.

use vstd::prelude::*;
use crate::annotate::{AnnotatedTextFragment, FragmentView};
use crate::dictionary::TextEntry;

pub mod filter;
pub mod heuristic;

verus! {

/// The candidate at the chosen position, where there is one.
pub open spec fn picked<'a>(candidates: Seq<&'a TextEntry>, choice: Option<int>) -> Option<&'a TextEntry> {
    match choice {
        Some(i) => if 0 <= i < candidates.len() {
            Some(candidates[i])
        } else {
            None
        },
        None => None,
    }
}

/// A selection policy. It may keep a memory of the fragments it has seen,
/// and its choice for a fragment depends on that memory and the fragment
/// alone.
///
/// A policy is called with exclusive access: testing the memory, writing to
/// it and choosing are one step, and no two calls overlap. To share a policy
/// between threads, keep it behind a lock.
pub trait Select {
    /// What the policy remembers.
    type Memory;

    /// What this policy remembers now.
    spec fn memory(&self) -> Self::Memory;

    /// The position, among the fragment's candidates, of the one that the
    /// policy chooses with the memory `m`; none where it leaves the fragment
    /// plain.
    spec fn choice(m: Self::Memory, fragment: FragmentView) -> Option<int>;

    /// What the policy remembers once it has seen `fragment` with the memory
    /// `m`.
    spec fn remember(m: Self::Memory, fragment: FragmentView) -> Self::Memory;

    /// Chooses one of the fragment's candidates, or none.
    fn select<'a>(&mut self, fragment: &AnnotatedTextFragment<'a>) -> (r: Option<&'a TextEntry>)
        ensures
            r == picked(fragment.annotations@, Self::choice(old(self).memory(), fragment@)),
            final(self).memory() == Self::remember(old(self).memory(), fragment@),
    ;
}

} // verus!
