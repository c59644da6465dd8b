//! Policies that look at the first candidate only.

use vstd::prelude::*;
use crate::annotate::{AnnotatedTextFragment, FragmentView};
use crate::dictionary::TextEntry;
use crate::select::Select;

verus! {

/// Chooses the first candidate every time.
#[derive(Debug)]
pub struct All;

impl Select for All {
    type Memory = ();

    open spec fn memory(&self) -> () {
        ()
    }

    open spec fn choice(m: (), fragment: FragmentView) -> Option<int> {
        if fragment.candidates.len() > 0 {
            Some(0)
        } else {
            None
        }
    }

    open spec fn remember(m: (), fragment: FragmentView) -> () {
        ()
    }

    fn select<'a>(&mut self, fragment: &AnnotatedTextFragment<'a>) -> (r: Option<&'a TextEntry>) {
        if fragment.annotations.len() > 0 {
            Some(fragment.annotations[0])
        } else {
            None
        }
    }
}

/// Chooses the first candidate only if neither its text nor its reading is
/// common.
#[derive(Debug)]
pub struct UncommonOnly;

impl Select for UncommonOnly {
    type Memory = ();

    open spec fn memory(&self) -> () {
        ()
    }

    open spec fn choice(m: (), fragment: FragmentView) -> Option<int> {
        if fragment.candidates.len() > 0 && !fragment.candidates[0].text_is_common
            && !fragment.candidates[0].reading_is_common {
            Some(0)
        } else {
            None
        }
    }

    open spec fn remember(m: (), fragment: FragmentView) -> () {
        ()
    }

    fn select<'a>(&mut self, fragment: &AnnotatedTextFragment<'a>) -> (r: Option<&'a TextEntry>) {
        if fragment.annotations.len() > 0 {
            let entry = fragment.annotations[0];
            assert(fragment@.candidates[0] == entry@);
            if !entry.text_is_common && !entry.reading_is_common {
                Some(entry)
            } else {
                None
            }
        } else {
            None
        }
    }
}

} // verus!
