//! Selection over a bare list of candidates.

use vstd::prelude::*;
use crate::dictionary::{entry_views, EntryView, TextEntry};
use crate::select::picked;

verus! {

/// Chooses one of a list of candidates, or none. The choice depends on the
/// candidates alone.
pub trait AnnotationSelector {
    /// The position of the candidate that the selector chooses, if any.
    spec fn choice(&self, candidates: Seq<EntryView>) -> Option<int>;

    /// Chooses one of the candidates, or none.
    fn select<'a>(&self, annotations: &[&'a TextEntry]) -> (r: Option<&'a TextEntry>)
        ensures
            r == picked(annotations@, self.choice(entry_views(annotations@))),
    ;
}

/// Chooses the first candidate.
#[derive(Debug)]
pub struct FirstAnnotationSelector;

impl AnnotationSelector for FirstAnnotationSelector {
    open spec fn choice(&self, candidates: Seq<EntryView>) -> Option<int> {
        if candidates.len() > 0 {
            Some(0)
        } else {
            None
        }
    }

    fn select<'a>(&self, annotations: &[&'a TextEntry]) -> (r: Option<&'a TextEntry>) {
        if annotations.len() > 0 {
            Some(annotations[0])
        } else {
            None
        }
    }
}

/// Chooses the first candidate only if neither its text nor its reading is
/// common.
#[derive(Debug)]
pub struct UncommonOnlyFirstAnnotationSelector;

impl AnnotationSelector for UncommonOnlyFirstAnnotationSelector {
    open spec fn choice(&self, candidates: Seq<EntryView>) -> Option<int> {
        if candidates.len() > 0 && !candidates[0].text_is_common && !candidates[0].reading_is_common {
            Some(0)
        } else {
            None
        }
    }

    fn select<'a>(&self, annotations: &[&'a TextEntry]) -> (r: Option<&'a TextEntry>) {
        if annotations.len() > 0 {
            let entry = annotations[0];
            assert(entry_views(annotations@)[0] == entry@);
            if !entry.text_is_common && !entry.reading_is_common {
                Some(entry)
            } else {
                None
            }
        } else {
            None
        }
    }
}

} // verus!
