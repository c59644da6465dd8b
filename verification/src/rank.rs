//! The ranker: orders a fragment's candidates by how well their reading
//! matches the tokenizer's hint and by how common their reading is.

use vstd::prelude::*;
use crate::dictionary::{entry_views, EntryView, TextEntry};
use crate::filtering::{lemma_filter_contains, lemma_filter_step};
use crate::text::{chars_of, equals_chars};

verus! {

/// The number of priority classes.
pub const CLASSES: u8 = 4;

/// The priority class of a candidate, best first. The classes are the four
/// values of the pair (the reading is the hint, the reading is common) in
/// descending order: a reading that is the hint comes before one that is
/// not, and among those a common reading before an uncommon one. Nothing
/// else of a candidate counts.
pub open spec fn priority(entry: EntryView, hint: Option<Seq<char>>) -> int {
    (if hint == Some(entry.reading) {
        0int
    } else {
        2int
    }) + (if entry.reading_is_common {
        0int
    } else {
        1int
    })
}

/// The class in which a candidate is ranked. With `skip_common`, a candidate
/// whose text is common is not ranked at all: its class is `CLASSES`.
pub open spec fn rank_class(entry: EntryView, hint: Option<Seq<char>>, skip_common: bool) -> int {
    if skip_common && entry.text_is_common {
        CLASSES as int
    } else {
        priority(entry, hint)
    }
}

/// The candidates of the classes below `classes`, class by class, each class
/// in the order in which the candidates were given.
pub open spec fn ranked_upto(
    entries: Seq<EntryView>,
    hint: Option<Seq<char>>,
    skip_common: bool,
    classes: int,
) -> Seq<EntryView>
    decreases classes,
{
    if classes <= 0 {
        Seq::empty()
    } else {
        ranked_upto(entries, hint, skip_common, classes - 1) + entries.filter(
            |e: EntryView| rank_class(e, hint, skip_common) == classes - 1,
        )
    }
}

/// The candidates in ranked order: sorted by priority class, candidates of
/// one class in the order in which they were given. With `skip_common`,
/// candidates whose text is common are dropped first.
pub open spec fn ranked(entries: Seq<EntryView>, hint: Option<Seq<char>>, skip_common: bool) -> Seq<
    EntryView,
> {
    ranked_upto(entries, hint, skip_common, CLASSES as int)
}

/// Every candidate ranked up to a class is one of the candidates given, of
/// a class below it; and every such candidate is ranked.
pub proof fn lemma_ranked_upto_holds(
    entries: Seq<EntryView>,
    hint: Option<Seq<char>>,
    skip_common: bool,
    classes: int,
    e: EntryView,
)
    ensures
        ranked_upto(entries, hint, skip_common, classes).contains(e) <==> entries.contains(e) && 0
            <= rank_class(e, hint, skip_common) < classes,
    decreases classes,
{
    if classes > 0 {
        let below = ranked_upto(entries, hint, skip_common, classes - 1);
        let pred = |x: EntryView| rank_class(x, hint, skip_common) == classes - 1;
        let top = entries.filter(pred);
        lemma_ranked_upto_holds(entries, hint, skip_common, classes - 1, e);
        lemma_filter_contains(entries, pred, e);
        if (below + top).contains(e) {
            let i = choose|i: int| 0 <= i < (below + top).len() && (below + top)[i] == e;
            if i < below.len() {
                assert(below[i] == e);
            } else {
                assert(top[i - below.len()] == e);
            }
        }
        if below.contains(e) {
            let i = choose|i: int| 0 <= i < below.len() && below[i] == e;
            assert((below + top)[i] == e);
        }
        if top.contains(e) {
            let i = choose|i: int| 0 <= i < top.len() && top[i] == e;
            assert((below + top)[below.len() + i] == e);
        }
    }
}

/// The ranked candidates are the candidates given, but for those that are
/// dropped: ranking adds none and loses none.
pub proof fn lemma_ranked_holds(entries: Seq<EntryView>, hint: Option<Seq<char>>, skip_common: bool, e: EntryView)
    ensures
        ranked(entries, hint, skip_common).contains(e) <==> entries.contains(e) && !(skip_common
            && e.text_is_common),
{
    lemma_ranked_upto_holds(entries, hint, skip_common, CLASSES as int, e);
}

/// The ranked candidates ascend by class: no candidate stands behind one of
/// a worse class.
pub proof fn lemma_ranked_ascends(
    entries: Seq<EntryView>,
    hint: Option<Seq<char>>,
    skip_common: bool,
    classes: int,
    i: int,
    j: int,
)
    requires
        0 <= i <= j < ranked_upto(entries, hint, skip_common, classes).len(),
    ensures
        rank_class(ranked_upto(entries, hint, skip_common, classes)[i], hint, skip_common) <= rank_class(
            ranked_upto(entries, hint, skip_common, classes)[j],
            hint,
            skip_common,
        ),
    decreases classes,
{
    if classes > 0 {
        let below = ranked_upto(entries, hint, skip_common, classes - 1);
        let pred = |x: EntryView| rank_class(x, hint, skip_common) == classes - 1;
        let top = entries.filter(pred);
        let all = below + top;
        if j < below.len() {
            lemma_ranked_ascends(entries, hint, skip_common, classes - 1, i, j);
        } else {
            assert(top.contains(top[j - below.len()]));
            lemma_filter_contains(entries, pred, all[j]);
            if i < below.len() {
                assert(below.contains(below[i]));
                lemma_ranked_upto_holds(entries, hint, skip_common, classes - 1, all[i]);
            } else {
                assert(top.contains(top[i - below.len()]));
                lemma_filter_contains(entries, pred, all[i]);
            }
        }
    }
}

/// The view of an optional string.
pub open spec fn hint_view(hint: Option<&str>) -> Option<Seq<char>> {
    match hint {
        Some(h) => Some(h@),
        None => None,
    }
}

/// The class of a candidate, or `CLASSES` where it is not ranked.
fn class_of(entry: &TextEntry, hint: &Option<Vec<char>>, skip_common: bool) -> (class: u8)
    ensures
        class == rank_class(
            entry@,
            match hint {
                Some(h) => Some(h@),
                None => None,
            },
            skip_common,
        ),
{
    if skip_common && entry.text_is_common {
        return CLASSES;
    }
    let matches = match hint {
        Some(h) => equals_chars(entry.reading.as_str(), h.as_slice()),
        None => false,
    };
    let by_hint: u8 = if matches { 0 } else { 2 };
    let by_use: u8 = if entry.reading_is_common { 0 } else { 1 };
    by_hint + by_use
}

/// Ranks the candidates: those whose reading is `hint` first, and among
/// equals those whose reading is common first; candidates that are equal in
/// both keep the order in which they were given. With `skip_common`,
/// candidates whose text is common are dropped.
pub fn rank<'a>(entries: &Vec<&'a TextEntry>, hint: Option<&str>, skip_common: bool) -> (r: Vec<&'a TextEntry>)
    ensures
        entry_views(r@) == ranked(entry_views(entries@), hint_view(hint), skip_common),
{
    let ghost all = entry_views(entries@);
    let ghost h = hint_view(hint);
    let wanted: Option<Vec<char>> = match hint {
        Some(text) => Some(chars_of(text)),
        None => None,
    };
    let mut classes: Vec<u8> = Vec::new();
    let mut i: usize = 0;
    while i < entries.len()
        invariant
            0 <= i <= entries@.len(),
            classes@.len() == i,
            all == entry_views(entries@),
            h == hint_view(hint),
            h == match wanted {
                Some(w) => Some(w@),
                None => None,
            },
            forall|j: int| 0 <= j < i ==> classes@[j] == rank_class(#[trigger] all[j], h, skip_common),
        decreases entries@.len() - i,
    {
        assert(all[i as int] == entries@[i as int]@);
        classes.push(class_of(entries[i], &wanted, skip_common));
        i += 1;
    }
    let mut r: Vec<&'a TextEntry> = Vec::new();
    let mut class: u8 = 0;
    assert(entry_views(r@) =~= ranked_upto(all, h, skip_common, 0));
    while class < CLASSES
        invariant
            0 <= class <= CLASSES,
            classes@.len() == entries@.len(),
            all == entry_views(entries@),
            forall|j: int| 0 <= j < entries@.len() ==> classes@[j] == rank_class(#[trigger] all[j], h, skip_common),
            entry_views(r@) == ranked_upto(all, h, skip_common, class as int),
        decreases CLASSES - class,
    {
        let ghost pred = |e: EntryView| rank_class(e, h, skip_common) == class as int;
        let ghost done = entry_views(r@);
        let mut i: usize = 0;
        assert(all.take(0).filter(pred) =~= Seq::<EntryView>::empty()) by {
            reveal(Seq::filter);
        }
        assert(done + all.take(0).filter(pred) =~= done);
        while i < entries.len()
            invariant
                0 <= i <= entries@.len(),
                0 <= class < CLASSES,
                classes@.len() == entries@.len(),
                all == entry_views(entries@),
                pred == |e: EntryView| rank_class(e, h, skip_common) == class as int,
                forall|j: int| 0 <= j < entries@.len() ==> classes@[j] == rank_class(#[trigger] all[j], h, skip_common),
                entry_views(r@) == done + all.take(i as int).filter(pred),
            decreases entries@.len() - i,
        {
            proof {
                lemma_filter_step(all, pred, i as int);
                assert(pred(all[i as int]) <==> rank_class(all[i as int], h, skip_common) == class as int);
            }
            if classes[i] == class {
                let ghost before = entry_views(r@);
                r.push(entries[i]);
                assert(entry_views(r@) =~= before.push(all[i as int]));
                assert(done + all.take(i as int).filter(pred).push(all[i as int]) =~= before.push(
                    all[i as int],
                ));
            }
            i += 1;
        }
        assert(all.take(entries@.len() as int) =~= all);
        class += 1;
    }
    r
}

} // verus!
