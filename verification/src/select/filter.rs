//! Policies that wrap another policy.

use vstd::prelude::*;
use crate::annotate::{fragment_text, AnnotatedTextFragment, FragmentView};
use crate::dictionary::TextEntry;
use crate::select::Select;
use crate::text::{chars_of, equals_chars};

verus! {

/// Lets another policy choose for the first fragment with a given text, and
/// leaves every later fragment with that text plain. Texts are the same
/// where they hold the same characters.
#[derive(Debug)]
pub struct FirstOccurrence<S: Select> {
    seen: Vec<String>,
    selector: S,
}

/// The texts that a list of strings holds.
pub open spec fn texts_of(seen: Seq<String>) -> Set<Seq<char>> {
    Set::new(|t: Seq<char>| exists|i: int| 0 <= i < seen.len() && (#[trigger] seen[i])@ == t)
}

impl<S: Select> FirstOccurrence<S> {
    /// The texts seen so far.
    pub closed spec fn seen(&self) -> Set<Seq<char>> {
        texts_of(self.seen@)
    }

    /// The wrapped policy.
    pub closed spec fn inner(&self) -> S {
        self.selector
    }

    /// The policy that has seen nothing yet and lets `selector` choose.
    pub fn new(selector: S) -> (r: Self)
        ensures
            r.seen() == Set::<Seq<char>>::empty(),
            r.inner() == selector,
    {
        let r = FirstOccurrence { seen: Vec::new(), selector };
        assert(r.seen() =~= Set::<Seq<char>>::empty());
        r
    }

    /// Whether a fragment with the text `text` has been seen.
    pub fn has_seen(&self, text: &str) -> (r: bool)
        ensures
            r == self.seen().contains(text@),
    {
        let wanted = chars_of(text);
        let mut i: usize = 0;
        while i < self.seen.len()
            invariant
                0 <= i <= self.seen@.len(),
                wanted@ == text@,
                forall|j: int| 0 <= j < i ==> (#[trigger] self.seen@[j])@ != text@,
            decreases self.seen@.len() - i,
        {
            if equals_chars(self.seen[i].as_str(), wanted.as_slice()) {
                return true;
            }
            i += 1;
        }
        false
    }
}

impl<S: Select> Select for FirstOccurrence<S> {
    type Memory = (Set<Seq<char>>, S::Memory);

    open spec fn memory(&self) -> (Set<Seq<char>>, S::Memory) {
        (self.seen(), self.inner().memory())
    }

    open spec fn choice(m: (Set<Seq<char>>, S::Memory), fragment: FragmentView) -> Option<int> {
        if m.0.contains(fragment.text) {
            None
        } else {
            S::choice(m.1, fragment)
        }
    }

    open spec fn remember(m: (Set<Seq<char>>, S::Memory), fragment: FragmentView) -> (
        Set<Seq<char>>,
        S::Memory,
    ) {
        if m.0.contains(fragment.text) {
            m
        } else {
            (m.0.insert(fragment.text), S::remember(m.1, fragment))
        }
    }

    fn select<'a>(&mut self, fragment: &AnnotatedTextFragment<'a>) -> (r: Option<&'a TextEntry>) {
        let text = fragment_text(fragment);
        if self.has_seen(text) {
            None
        } else {
            let ghost before = self.seen@;
            self.seen.push(text.to_owned());
            proof {
                let after = self.seen@;
                assert(after[before.len() as int]@ == text@);
                assert forall|t: Seq<char>| texts_of(after).contains(t) <==> texts_of(before).insert(
                    text@,
                ).contains(t) by {
                    if texts_of(after).contains(t) {
                        let i = choose|i: int| 0 <= i < after.len() && (#[trigger] after[i])@ == t;
                        if i < before.len() {
                            assert(before[i]@ == t);
                        }
                    }
                    if texts_of(before).contains(t) {
                        let i = choose|i: int| 0 <= i < before.len() && (#[trigger] before[i])@ == t;
                        assert(after[i]@ == t);
                    }
                }
                assert(texts_of(after) =~= texts_of(before).insert(text@));
            }
            self.selector.select(fragment)
        }
    }
}

} // verus!
