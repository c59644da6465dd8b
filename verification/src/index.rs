//! Putting entries in index order: a merge sort in which, of two entries
//! with one key, the later one stays.

use vstd::prelude::*;
use crate::dictionary::{
    all_ordered, collected, key_order, key_precedes, lemma_key_asymmetric, lemma_key_total,
    lemma_key_transitive, placed, sorted, views, EntryView, KeyView, TextEntry,
};
use crate::filtering::lemma_filter_contains;
use crate::order::{lemma_precedes_asymmetric, order_of, Order};
use crate::text::chars_of;

verus! {

/// Among the first `n` entries, the entry at `j` is the last with its key.
pub open spec fn stays(entries: Seq<EntryView>, n: int, j: int) -> bool {
    0 <= j < n && forall|k: int| j < k < n ==> (#[trigger] entries[k]).key() != entries[j].key()
}

/// `index` holds, of the first `n` entries, those that are the last with
/// their key, and nothing else.
pub open spec fn holds_last(index: Seq<EntryView>, entries: Seq<EntryView>, n: int) -> bool {
    forall|e: EntryView|
        #[trigger] index.contains(e) <==> exists|j: int| stays(entries, n, j) && #[trigger] entries[j] == e
}

/// Whether some entry of `index` has the key `key`.
pub open spec fn has_key(index: Seq<EntryView>, key: KeyView) -> bool {
    exists|i: int| 0 <= i < index.len() && (#[trigger] index[i]).key() == key
}

/// What is left of a sorted sequence by a filter is sorted.
pub proof fn lemma_filter_sorted(s: Seq<EntryView>, pred: spec_fn(EntryView) -> bool)
    requires
        sorted(s),
    ensures
        sorted(s.filter(pred)),
    decreases s.len(),
{
    reveal(Seq::filter);
    if s.len() > 0 {
        let t = s.drop_last();
        let f = t.filter(pred);
        assert(sorted(t)) by {
            assert forall|i: int, j: int| 0 <= i < j < t.len() implies key_precedes(
                #[trigger] t[i].key(),
                #[trigger] t[j].key(),
            ) by {
                assert(t[i] == s[i] && t[j] == s[j]);
            }
        }
        lemma_filter_sorted(t, pred);
        if pred(s.last()) {
            let g = f.push(s.last());
            assert forall|i: int, j: int| 0 <= i < j < g.len() implies key_precedes(
                #[trigger] g[i].key(),
                #[trigger] g[j].key(),
            ) by {
                if j < f.len() {
                    assert(g[i] == f[i] && g[j] == f[j]);
                } else {
                    assert(f.contains(f[i]));
                    lemma_filter_contains(t, pred, f[i]);
                    let k = choose|k: int| 0 <= k < t.len() && t[k] == f[i];
                    assert(s[k] == f[i]);
                    assert(key_precedes(s[k].key(), s[s.len() - 1].key()));
                }
            }
        }
    }
}

/// Placing an entry in a sorted sequence leaves it sorted, and holding the
/// entry and whatever it held under another key.
pub proof fn lemma_placed(s: Seq<EntryView>, e: EntryView)
    requires
        sorted(s),
    ensures
        sorted(placed(s, e)),
        forall|x: EntryView| #[trigger] placed(s, e).contains(x) <==> x == e || (s.contains(x) && x.key() != e.key()),
{
    let lower = |x: EntryView| key_precedes(x.key(), e.key());
    let upper = |x: EntryView| key_precedes(e.key(), x.key());
    let lo = s.filter(lower);
    let hi = s.filter(upper);
    let p = placed(s, e);
    assert(p == lo + seq![e] + hi);
    lemma_filter_sorted(s, lower);
    lemma_filter_sorted(s, upper);
    assert forall|i: int| 0 <= i < lo.len() implies lower(#[trigger] lo[i]) by {
        assert(lo.contains(lo[i]));
        lemma_filter_contains(s, lower, lo[i]);
    }
    assert forall|i: int| 0 <= i < hi.len() implies upper(#[trigger] hi[i]) by {
        assert(hi.contains(hi[i]));
        lemma_filter_contains(s, upper, hi[i]);
    }
    assert forall|i: int, j: int| 0 <= i < j < p.len() implies key_precedes(
        #[trigger] p[i].key(),
        #[trigger] p[j].key(),
    ) by {
        if j < lo.len() {
            assert(p[i] == lo[i] && p[j] == lo[j]);
        } else if j == lo.len() {
            assert(p[i] == lo[i] && p[j] == e);
            assert(lower(lo[i]));
        } else {
            assert(p[j] == hi[j - lo.len() - 1]);
            assert(upper(hi[j - lo.len() - 1]));
            if i < lo.len() {
                assert(p[i] == lo[i]);
                assert(lower(lo[i]));
                lemma_key_transitive(p[i].key(), e.key(), p[j].key());
            } else if i == lo.len() {
                assert(p[i] == e);
            } else {
                assert(p[i] == hi[i - lo.len() - 1]);
            }
        }
    }
    assert forall|x: EntryView| #[trigger] p.contains(x) <==> x == e || (s.contains(x) && x.key()
        != e.key()) by {
        lemma_filter_contains(s, lower, x);
        lemma_filter_contains(s, upper, x);
        if p.contains(x) {
            let i = choose|i: int| 0 <= i < p.len() && p[i] == x;
            if i < lo.len() {
                assert(lo[i] == x);
                assert(lo.contains(x));
                lemma_key_asymmetric(x.key(), e.key());
            } else if i > lo.len() {
                assert(hi[i - lo.len() - 1] == x);
                assert(hi.contains(x));
                lemma_key_asymmetric(e.key(), x.key());
            }
        }
        if x == e {
            assert(p[lo.len() as int] == e);
        } else if s.contains(x) && x.key() != e.key() {
            lemma_key_total(x.key(), e.key());
            if key_precedes(x.key(), e.key()) {
                let i = choose|i: int| 0 <= i < lo.len() && lo[i] == x;
                assert(p[i] == x);
            } else {
                let i = choose|i: int| 0 <= i < hi.len() && hi[i] == x;
                assert(p[lo.len() + 1 + i] == x);
            }
        }
    }
}

/// The index of the first `n` entries is sorted, and holds those of them
/// that are the last with their key, and nothing else.
pub proof fn lemma_collected(entries: Seq<EntryView>, n: int)
    requires
        0 <= n <= entries.len(),
    ensures
        sorted(collected(entries, n)),
        holds_last(collected(entries, n), entries, n),
    decreases n,
{
    let index = collected(entries, n);
    if n == 0 {
        assert(index =~= Seq::<EntryView>::empty());
    } else {
        let before = collected(entries, n - 1);
        let e = entries[n - 1];
        lemma_collected(entries, n - 1);
        lemma_placed(before, e);
        assert forall|x: EntryView| #[trigger] index.contains(x) <==> exists|j: int|
            stays(entries, n, j) && #[trigger] entries[j] == x by {
            if index.contains(x) {
                if x == e {
                    assert(stays(entries, n, n - 1) && entries[n - 1] == x);
                } else {
                    assert(before.contains(x));
                    let j = choose|j: int| stays(entries, n - 1, j) && #[trigger] entries[j] == x;
                    assert(stays(entries, n, j) && entries[j] == x);
                }
            }
            if exists|j: int| stays(entries, n, j) && #[trigger] entries[j] == x {
                let j = choose|j: int| stays(entries, n, j) && #[trigger] entries[j] == x;
                if j < n - 1 {
                    assert(stays(entries, n - 1, j) && entries[j] == x);
                    assert(before.contains(x));
                    assert(entries[n - 1].key() != entries[j].key());
                }
            }
        }
    }
}

/// The index holds nothing but entries that it was given: where the spans
/// of each of the first `n` entries ascend, so do the spans of every entry
/// of their index.
pub proof fn lemma_collected_ordered(entries: Seq<EntryView>, n: int)
    requires
        0 <= n <= entries.len(),
        forall|j: int| 0 <= j < n ==> (#[trigger] entries[j]).spans_ordered(),
    ensures
        all_ordered(collected(entries, n)),
{
    let index = collected(entries, n);
    lemma_collected(entries, n);
    assert forall|i: int| 0 <= i < index.len() implies (#[trigger] index[i]).spans_ordered() by {
        assert(index.contains(index[i]));
        let j = choose|j: int| stays(entries, n, j) && #[trigger] entries[j] == index[i];
        assert(entries[j].spans_ordered());
    }
}

/// A sorted sequence is fixed by what it holds: two sorted sequences that
/// hold the same entries are the same sequence.
pub proof fn lemma_sorted_unique(a: Seq<EntryView>, b: Seq<EntryView>)
    requires
        sorted(a),
        sorted(b),
        forall|e: EntryView| a.contains(e) <==> b.contains(e),
    ensures
        a == b,
    decreases a.len(),
{
    if a.len() == 0 {
        if b.len() > 0 {
            assert(b.contains(b[0]));
        }
        assert(a =~= b);
    } else if b.len() == 0 {
        assert(a.contains(a[0]));
    } else {
        let la = a.last();
        let lb = b.last();
        assert(a.contains(la) && b.contains(lb));
        let i = choose|i: int| 0 <= i < b.len() && b[i] == la;
        let k = choose|k: int| 0 <= k < a.len() && a[k] == lb;
        if i < b.len() - 1 {
            assert(key_precedes(b[i].key(), b[b.len() - 1].key()));
            if k < a.len() - 1 {
                assert(key_precedes(a[k].key(), a[a.len() - 1].key()));
            }
            lemma_key_asymmetric(la.key(), lb.key());
        }
        assert(la == lb);
        let a2 = a.drop_last();
        let b2 = b.drop_last();
        assert forall|e: EntryView| a2.contains(e) <==> b2.contains(e) by {
            if a2.contains(e) {
                let p = choose|p: int| 0 <= p < a2.len() && a2[p] == e;
                assert(a[p] == e);
                assert(key_precedes(a[p].key(), a[a.len() - 1].key()));
                lemma_key_asymmetric(e.key(), la.key());
                assert(a.contains(e));
                let q = choose|q: int| 0 <= q < b.len() && b[q] == e;
                assert(b2[q] == e);
            }
            if b2.contains(e) {
                let q = choose|q: int| 0 <= q < b2.len() && b2[q] == e;
                assert(b[q] == e);
                assert(key_precedes(b[q].key(), b[b.len() - 1].key()));
                lemma_key_asymmetric(e.key(), lb.key());
                assert(b.contains(e));
                let p = choose|p: int| 0 <= p < a.len() && a[p] == e;
                assert(a2[p] == e);
            }
        }
        assert(sorted(a2)) by {
            assert forall|i: int, j: int| 0 <= i < j < a2.len() implies key_precedes(
                #[trigger] a2[i].key(),
                #[trigger] a2[j].key(),
            ) by {
                assert(a2[i] == a[i] && a2[j] == a[j]);
            }
        }
        assert(sorted(b2)) by {
            assert forall|i: int, j: int| 0 <= i < j < b2.len() implies key_precedes(
                #[trigger] b2[i].key(),
                #[trigger] b2[j].key(),
            ) by {
                assert(b2[i] == b[i] && b2[j] == b[j]);
            }
        }
        lemma_sorted_unique(a2, b2);
        assert(a =~= a2.push(la));
        assert(b =~= b2.push(lb));
    }
}

/// Every key among the first `n` entries is the key of one that stays.
pub proof fn lemma_key_stays(entries: Seq<EntryView>, n: int, k: int) -> (j: int)
    requires
        0 <= k < n <= entries.len(),
    ensures
        stays(entries, n, j),
        entries[j].key() == entries[k].key(),
        k <= j,
    decreases n - k,
{
    if exists|m: int| k < m < n && (#[trigger] entries[m]).key() == entries[k].key() {
        let m = choose|m: int| k < m < n && (#[trigger] entries[m]).key() == entries[k].key();
        lemma_key_stays(entries, n, m)
    } else {
        k
    }
}

/// The index of two lists of entries, one after the other, holds the index
/// of the second, and of the index of the first what has no key of the
/// second: a sorted sequence that holds just that is the index of both.
pub proof fn lemma_merged(
    merged: Seq<EntryView>,
    first: Seq<EntryView>,
    second: Seq<EntryView>,
    left: Seq<EntryView>,
    right: Seq<EntryView>,
)
    requires
        holds_last(first, left, left.len() as int),
        holds_last(second, right, right.len() as int),
        forall|e: EntryView| #[trigger] merged.contains(e) <==> second.contains(e) || (first.contains(e) && !has_key(second, e.key())),
    ensures
        holds_last(merged, left + right, (left + right).len() as int),
{
    let both = left + right;
    let n = both.len() as int;
    let split = left.len() as int;
    assert forall|e: EntryView| #[trigger] merged.contains(e) <==> exists|j: int|
        stays(both, n, j) && #[trigger] both[j] == e by {
        if merged.contains(e) {
            if second.contains(e) {
                let j = choose|j: int| stays(right, right.len() as int, j) && #[trigger] right[j] == e;
                assert forall|k: int| split + j < k < n implies (#[trigger] both[k]).key() != both[split
                    + j].key() by {
                    assert(both[k] == right[k - split]);
                }
                assert(stays(both, n, split + j) && both[split + j] == e);
            } else {
                let j = choose|j: int| stays(left, split, j) && #[trigger] left[j] == e;
                assert forall|k: int| j < k < n implies (#[trigger] both[k]).key() != both[j].key() by {
                    if k < split {
                        assert(both[k] == left[k]);
                    } else if both[k].key() == e.key() {
                        let m = lemma_key_stays(right, right.len() as int, k - split);
                        assert(stays(right, right.len() as int, m) && right[m] == right[m]);
                        assert(second.contains(right[m]));
                        let i = choose|i: int| 0 <= i < second.len() && second[i] == right[m];
                        assert(second[i].key() == e.key());
                        assert(false);
                    }
                }
                assert(stays(both, n, j) && both[j] == e);
            }
        }
        if exists|j: int| stays(both, n, j) && #[trigger] both[j] == e {
            let j = choose|j: int| stays(both, n, j) && #[trigger] both[j] == e;
            if j >= split {
                assert forall|k: int| j - split < k < right.len() implies (#[trigger] right[k]).key()
                    != right[j - split].key() by {
                    assert(both[k + split] == right[k]);
                }
                assert(stays(right, right.len() as int, j - split) && right[j - split] == e);
                assert(second.contains(e));
            } else {
                assert forall|k: int| j < k < split implies (#[trigger] left[k]).key() != left[j].key() by {
                    assert(both[k] == left[k]);
                }
                assert(stays(left, split, j) && left[j] == e);
                assert(first.contains(e));
                if has_key(second, e.key()) {
                    let i = choose|i: int| 0 <= i < second.len() && (#[trigger] second[i]).key() == e.key();
                    assert(second.contains(second[i]));
                    let m = choose|m: int|
                        stays(right, right.len() as int, m) && #[trigger] right[m] == second[i];
                    assert(both[split + m] == right[m]);
                    assert(false);
                }
            }
        }
    }
}

/// The place of the key of `x` relative to the key of `y`.
fn entry_order(x: &TextEntry, y: &TextEntry) -> (r: Order)
    ensures
        r == key_order(x@.key(), y@.key()),
{
    let text = chars_of(y.text.as_str());
    let by_text = order_of(x.text.as_str(), text.as_slice());
    match by_text {
        Order::Same => {
            let reading = chars_of(y.reading.as_str());
            let by_reading = order_of(x.reading.as_str(), reading.as_slice());
            proof {
                if key_precedes(x@.key(), x@.key()) {
                    lemma_key_asymmetric(x@.key(), x@.key());
                }
                if crate::order::precedes(x@.text, y@.text) {
                    lemma_precedes_asymmetric(x@.text, y@.text);
                }
            }
            by_reading
        },
        _ => by_text,
    }
}

/// Each entry comes before the ones in front of it.
spec fn descending(s: Seq<EntryView>) -> bool {
    forall|p: int, q: int| 0 <= p < q < s.len() ==> key_precedes(#[trigger] s[q].key(), #[trigger] s[p].key())
}

/// Every one of the first `n` entries comes before whatever `taken` holds.
spec fn below_all(s: Seq<EntryView>, n: int, taken: Seq<EntryView>) -> bool {
    forall|i: int, p: int|
        0 <= i < n && 0 <= p < taken.len() ==> key_precedes(#[trigger] s[i].key(), #[trigger] taken[p].key())
}

/// `e` is one of the entries of `second` from position `j` on.
spec fn from_second(second: Seq<EntryView>, j: int, e: EntryView) -> bool {
    exists|q: int| j <= q < second.len() && #[trigger] second[q] == e
}

/// `e` is one of the entries of `first` from position `i` on, and `second`
/// has no entry with its key.
spec fn from_first(first: Seq<EntryView>, second: Seq<EntryView>, i: int, e: EntryView) -> bool {
    !has_key(second, e.key()) && exists|p: int| i <= p < first.len() && #[trigger] first[p] == e
}

/// Merges two sorted lists. Of two entries with one key, one from each
/// list, the one from the second list stays.
fn merge(a: Vec<TextEntry>, b: Vec<TextEntry>) -> (r: Vec<TextEntry>)
    requires
        sorted(views(a@)),
        sorted(views(b@)),
    ensures
        sorted(views(r@)),
        forall|e: EntryView| #[trigger] views(r@).contains(e) <==> views(b@).contains(e) || (views(a@).contains(e) && !has_key(views(b@), e.key())),
{
    let ghost first = views(a@);
    let ghost second = views(b@);
    let mut a = a;
    let mut b = b;
    let mut out: Vec<TextEntry> = Vec::new();
    while a.len() > 0 || b.len() > 0
        invariant
            sorted(first),
            sorted(second),
            a@.len() <= first.len(),
            b@.len() <= second.len(),
            views(a@) == first.subrange(0, a@.len() as int),
            views(b@) == second.subrange(0, b@.len() as int),
            descending(views(out@)),
            below_all(first, a@.len() as int, views(out@)),
            below_all(second, b@.len() as int, views(out@)),
            forall|e: EntryView| #[trigger] views(out@).contains(e) <==> from_second(second, b@.len() as int, e) || from_first(first, second, a@.len() as int, e),
        decreases a@.len() + b@.len(),
    {
        let ghost i = a@.len() as int;
        let ghost j = b@.len() as int;
        let ghost taken = views(out@);
        let place = if a.len() == 0 {
            Order::Before
        } else if b.len() == 0 {
            Order::After
        } else {
            assert(views(a@)[i - 1] == first[i - 1]);
            assert(views(b@)[j - 1] == second[j - 1]);
            entry_order(&a[a.len() - 1], &b[b.len() - 1])
        };
        proof {
            if i > 0 && j > 0 {
                lemma_key_total(first[i - 1].key(), second[j - 1].key());
            }
        }
        if place == Order::After {
            let x = a.pop().unwrap();
            assert(x@ == first[i - 1]) by {
                assert(first.subrange(0, i)[i - 1] == first[i - 1]);
            }
            proof {
                if has_key(second, x@.key()) {
                    let q = choose|q: int| 0 <= q < second.len() && (#[trigger] second[q]).key() == x@.key();
                    if q < j {
                        if q < j - 1 {
                            assert(key_precedes(second[q].key(), second[j - 1].key()));
                            lemma_key_transitive(second[q].key(), second[j - 1].key(), x@.key());
                        }
                        lemma_key_asymmetric(second[q].key(), x@.key());
                    } else {
                        assert(from_second(second, j, second[q]));
                        assert(taken.contains(second[q]));
                        let p = choose|p: int| 0 <= p < taken.len() && taken[p] == second[q];
                        assert(key_precedes(first[i - 1].key(), taken[p].key()));
                        lemma_key_asymmetric(x@.key(), second[q].key());
                    }
                }
            }
            out.push(x);
            proof {
                let now = views(out@);
                assert(now =~= taken.push(x@));
                assert(views(a@) =~= first.subrange(0, i - 1));
                assert forall|p: int, q: int| 0 <= p < q < now.len() implies key_precedes(
                    #[trigger] now[q].key(),
                    #[trigger] now[p].key(),
                ) by {
                    if q == taken.len() {
                        assert(now[p] == taken[p]);
                        assert(key_precedes(first[i - 1].key(), taken[p].key()));
                    } else {
                        assert(now[p] == taken[p] && now[q] == taken[q]);
                    }
                }
                assert forall|m: int, p: int| 0 <= m < i - 1 && 0 <= p < now.len() implies key_precedes(
                    #[trigger] first[m].key(),
                    #[trigger] now[p].key(),
                ) by {
                    if p == taken.len() {
                        assert(key_precedes(first[m].key(), first[i - 1].key()));
                    } else {
                        assert(now[p] == taken[p]);
                    }
                }
                assert forall|m: int, p: int| 0 <= m < j && 0 <= p < now.len() implies key_precedes(
                    #[trigger] second[m].key(),
                    #[trigger] now[p].key(),
                ) by {
                    if p == taken.len() {
                        if m < j - 1 {
                            assert(key_precedes(second[m].key(), second[j - 1].key()));
                            lemma_key_transitive(second[m].key(), second[j - 1].key(), x@.key());
                        }
                    } else {
                        assert(now[p] == taken[p]);
                    }
                }
                assert forall|e: EntryView| #[trigger] now.contains(e) <==> from_second(second, j, e)
                    || from_first(first, second, i - 1, e) by {
                    if now.contains(e) {
                        let p = choose|p: int| 0 <= p < now.len() && now[p] == e;
                        if p == taken.len() {
                            assert(first[i - 1] == e);
                        } else {
                            assert(taken[p] == e);
                            assert(taken.contains(e));
                            if from_first(first, second, i, e) {
                                let m = choose|m: int| i <= m < first.len() && #[trigger] first[m] == e;
                                assert(first[m] == e);
                            }
                        }
                    }
                    if from_second(second, j, e) {
                        assert(taken.contains(e));
                        let p = choose|p: int| 0 <= p < taken.len() && taken[p] == e;
                        assert(now[p] == e);
                    } else if from_first(first, second, i - 1, e) {
                        let m = choose|m: int| i - 1 <= m < first.len() && #[trigger] first[m] == e;
                        if m == i - 1 {
                            assert(now[taken.len() as int] == e);
                        } else {
                            assert(first[m] == e);
                            assert(from_first(first, second, i, e));
                            assert(taken.contains(e));
                            let p = choose|p: int| 0 <= p < taken.len() && taken[p] == e;
                            assert(now[p] == e);
                        }
                    }
                }
            }
        } else {
            let y = b.pop().unwrap();
            assert(y@ == second[j - 1]) by {
                assert(second.subrange(0, j)[j - 1] == second[j - 1]);
            }
            let ghost dropped = place == Order::Same;
            if place == Order::Same {
                let x = a.pop();
                assert(first.subrange(0, i)[i - 1] == first[i - 1]);
            }
            let ghost i2 = a@.len() as int;
            out.push(y);
            proof {
                let now = views(out@);
                assert(now =~= taken.push(y@));
                assert(views(a@) =~= first.subrange(0, i2));
                assert(views(b@) =~= second.subrange(0, j - 1));
                assert forall|p: int, q: int| 0 <= p < q < now.len() implies key_precedes(
                    #[trigger] now[q].key(),
                    #[trigger] now[p].key(),
                ) by {
                    if q == taken.len() {
                        assert(now[p] == taken[p]);
                        assert(key_precedes(second[j - 1].key(), taken[p].key()));
                    } else {
                        assert(now[p] == taken[p] && now[q] == taken[q]);
                    }
                }
                assert forall|m: int, p: int| 0 <= m < j - 1 && 0 <= p < now.len() implies key_precedes(
                    #[trigger] second[m].key(),
                    #[trigger] now[p].key(),
                ) by {
                    if p == taken.len() {
                        assert(key_precedes(second[m].key(), second[j - 1].key()));
                    } else {
                        assert(now[p] == taken[p]);
                    }
                }
                assert forall|m: int, p: int| 0 <= m < i2 && 0 <= p < now.len() implies key_precedes(
                    #[trigger] first[m].key(),
                    #[trigger] now[p].key(),
                ) by {
                    if p == taken.len() {
                        if dropped {
                            assert(key_precedes(first[m].key(), first[i - 1].key()));
                        } else {
                            lemma_key_total(first[i - 1].key(), y@.key());
                            if m < i - 1 {
                                assert(key_precedes(first[m].key(), first[i - 1].key()));
                                lemma_key_transitive(first[m].key(), first[i - 1].key(), y@.key());
                            }
                        }
                    } else {
                        assert(now[p] == taken[p]);
                    }
                }
                assert forall|e: EntryView| #[trigger] now.contains(e) <==> from_second(second, j - 1, e)
                    || from_first(first, second, i2, e) by {
                    if now.contains(e) {
                        let p = choose|p: int| 0 <= p < now.len() && now[p] == e;
                        if p == taken.len() {
                            assert(second[j - 1] == e);
                        } else {
                            assert(taken[p] == e);
                            assert(taken.contains(e));
                            if from_second(second, j, e) {
                                let q = choose|q: int| j <= q < second.len() && #[trigger] second[q] == e;
                                assert(second[q] == e);
                            } else {
                                let m = choose|m: int| i <= m < first.len() && #[trigger] first[m] == e;
                                assert(first[m] == e);
                            }
                        }
                    }
                    if from_second(second, j - 1, e) {
                        let q = choose|q: int| j - 1 <= q < second.len() && #[trigger] second[q] == e;
                        if q == j - 1 {
                            assert(now[taken.len() as int] == e);
                        } else {
                            assert(second[q] == e);
                            assert(from_second(second, j, e));
                            assert(taken.contains(e));
                            let p = choose|p: int| 0 <= p < taken.len() && taken[p] == e;
                            assert(now[p] == e);
                        }
                    } else if from_first(first, second, i2, e) {
                        let m = choose|m: int| i2 <= m < first.len() && #[trigger] first[m] == e;
                        if m < i {
                            assert(dropped && m == i - 1);
                            assert(second[j - 1].key() == e.key());
                            assert(false);
                        }
                        assert(first[m] == e);
                        assert(from_first(first, second, i, e));
                        assert(taken.contains(e));
                        let p = choose|p: int| 0 <= p < taken.len() && taken[p] == e;
                        assert(now[p] == e);
                    }
                }
            }
        }
    }
    let ghost taken = views(out@);
    let ghost n = taken.len() as int;
    let mut r: Vec<TextEntry> = Vec::new();
    while out.len() > 0
        invariant
            n == taken.len(),
            out@.len() + r@.len() == n,
            views(out@) == taken.subrange(0, out@.len() as int),
            forall|k: int| 0 <= k < r@.len() ==> (#[trigger] views(r@)[k]) == taken[n - 1 - k],
        decreases out@.len(),
    {
        let ghost m = out@.len() as int;
        let ghost before = views(r@);
        let z = out.pop().unwrap();
        assert(z@ == taken[m - 1]) by {
            assert(taken.subrange(0, m)[m - 1] == taken[m - 1]);
        }
        r.push(z);
        assert(views(r@) =~= before.push(z@));
        assert(views(out@) =~= taken.subrange(0, m - 1));
    }
    proof {
        let merged = views(r@);
        assert forall|p: int, q: int| 0 <= p < q < merged.len() implies key_precedes(
            #[trigger] merged[p].key(),
            #[trigger] merged[q].key(),
        ) by {
            assert(merged[p] == taken[n - 1 - p] && merged[q] == taken[n - 1 - q]);
        }
        assert forall|e: EntryView| #[trigger] merged.contains(e) <==> second.contains(e) || (first.contains(e)
            && !has_key(second, e.key())) by {
            if merged.contains(e) {
                let k = choose|k: int| 0 <= k < merged.len() && merged[k] == e;
                assert(taken[n - 1 - k] == e);
                assert(taken.contains(e));
                if from_second(second, 0, e) {
                    let q = choose|q: int| 0 <= q < second.len() && #[trigger] second[q] == e;
                    assert(second[q] == e);
                } else {
                    let m = choose|m: int| 0 <= m < first.len() && #[trigger] first[m] == e;
                    assert(first[m] == e);
                }
            }
            if second.contains(e) {
                let q = choose|q: int| 0 <= q < second.len() && second[q] == e;
                assert(from_second(second, 0, e));
            } else if first.contains(e) && !has_key(second, e.key()) {
                let m = choose|m: int| 0 <= m < first.len() && first[m] == e;
                assert(from_first(first, second, 0, e));
            }
            if from_second(second, 0, e) || from_first(first, second, 0, e) {
                assert(taken.contains(e));
                let p = choose|p: int| 0 <= p < taken.len() && taken[p] == e;
                assert(merged[n - 1 - p] == taken[n - 1 - (n - 1 - p)]);
            }
        }
    }
    r
}

/// Sorts the entries by key; of entries with one key, the last one stays.
fn sort(v: Vec<TextEntry>) -> (r: Vec<TextEntry>)
    ensures
        sorted(views(r@)),
        holds_last(views(r@), views(v@), v@.len() as int),
    decreases v@.len(),
{
    let ghost whole = views(v@);
    if v.len() <= 1 {
        proof {
            assert forall|e: EntryView| #[trigger] whole.contains(e) <==> exists|j: int|
                stays(whole, whole.len() as int, j) && #[trigger] whole[j] == e by {
                if whole.contains(e) {
                    assert(stays(whole, whole.len() as int, 0) && whole[0] == e);
                }
            }
        }
        return v;
    }
    let mut left = v;
    let mid = left.len() / 2;
    let right = left.split_off(mid);
    proof {
        assert(views(left@) + views(right@) =~= whole);
    }
    let ghost first_half = views(left@);
    let ghost second_half = views(right@);
    let a = sort(left);
    let b = sort(right);
    let ghost first = views(a@);
    let ghost second = views(b@);
    let r = merge(a, b);
    proof {
        lemma_merged(views(r@), first, second, first_half, second_half);
    }
    r
}

/// Puts the entries in index order: sorted by key, and of entries with one
/// key only the last.
pub fn index_of(entries: Vec<TextEntry>) -> (r: Vec<TextEntry>)
    ensures
        sorted(views(r@)),
        views(r@) == collected(views(entries@), entries@.len() as int),
        all_ordered(views(entries@)) ==> all_ordered(views(r@)),
{
    let ghost given = views(entries@);
    let r = sort(entries);
    proof {
        let n = given.len() as int;
        lemma_collected(given, n);
        let want = collected(given, n);
        assert forall|e: EntryView| views(r@).contains(e) <==> want.contains(e) by {}
        lemma_sorted_unique(views(r@), want);
        if all_ordered(given) {
            lemma_collected_ordered(given, n);
        }
    }
    r
}

} // verus!
