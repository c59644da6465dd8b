//! Facts about filtered sequences.

use vstd::prelude::*;

verus! {

/// Where a predicate holds exactly on the positions `lo..hi` of a sequence,
/// filtering by it leaves that stretch.
pub proof fn lemma_filter_block<A>(s: Seq<A>, pred: spec_fn(A) -> bool, lo: int, hi: int)
    requires
        0 <= lo <= hi <= s.len(),
        forall|i: int| 0 <= i < s.len() ==> (pred(#[trigger] s[i]) <==> lo <= i < hi),
    ensures
        s.filter(pred) == s.subrange(lo, hi),
    decreases s.len(),
{
    reveal(Seq::filter);
    if s.len() == 0 {
        assert(s.filter(pred) =~= s.subrange(lo, hi));
    } else {
        let t = s.drop_last();
        let n = t.len() as int;
        assert forall|i: int| 0 <= i < t.len() implies t[i] == s[i] by {}
        if lo <= n && n < hi {
            assert(pred(s[n]));
            assert forall|i: int| 0 <= i < t.len() implies (pred(#[trigger] t[i]) <==> lo <= i < n) by {
                assert(t[i] == s[i]);
            }
            lemma_filter_block(t, pred, lo, n);
            assert(t.subrange(lo, n).push(s.last()) =~= s.subrange(lo, hi));
        } else {
            assert(!pred(s[n]));
            let lo2 = if lo <= n { lo } else { n };
            let hi2 = if hi <= n { hi } else { n };
            assert forall|i: int| 0 <= i < t.len() implies (pred(#[trigger] t[i]) <==> lo2 <= i < hi2) by {
                assert(t[i] == s[i]);
            }
            lemma_filter_block(t, pred, lo2, hi2);
            assert(t.subrange(lo2, hi2) =~= s.subrange(lo, hi));
        }
    }
}

/// An element of a filtered sequence is an element of the sequence on which
/// the predicate holds, and the other way round.
pub proof fn lemma_filter_contains<A>(s: Seq<A>, pred: spec_fn(A) -> bool, x: A)
    ensures
        s.filter(pred).contains(x) <==> (s.contains(x) && pred(x)),
    decreases s.len(),
{
    reveal(Seq::filter);
    if s.len() == 0 {
    } else {
        let t = s.drop_last();
        lemma_filter_contains(t, pred, x);
        let f = t.filter(pred);
        if s.filter(pred).contains(x) {
            let i = choose|i: int| 0 <= i < s.filter(pred).len() && s.filter(pred)[i] == x;
            if pred(s.last()) && i == f.len() {
                assert(s[s.len() - 1] == x);
            } else {
                assert(f[i] == x);
                assert(f.contains(x));
                let j = choose|j: int| 0 <= j < t.len() && t[j] == x;
                assert(s[j] == x);
            }
        }
        if s.contains(x) && pred(x) {
            let j = choose|j: int| 0 <= j < s.len() && s[j] == x;
            if j == s.len() - 1 {
                assert(s.filter(pred) == f.push(s.last()));
                assert(f.push(s.last())[f.len() as int] == x);
            } else {
                assert(t[j] == x);
                assert(t.contains(x));
                let i = choose|i: int| 0 <= i < f.len() && f[i] == x;
                if pred(s.last()) {
                    assert(f.push(s.last())[i] == x);
                }
            }
        }
    }
}

/// Filtering by a predicate, then by a stronger one, is filtering by the
/// stronger one.
pub proof fn lemma_filter_refines<A>(s: Seq<A>, weak: spec_fn(A) -> bool, strong: spec_fn(A) -> bool)
    requires
        forall|x: A| #[trigger] strong(x) ==> weak(x),
    ensures
        s.filter(strong) == s.filter(weak).filter(strong),
    decreases s.len(),
{
    reveal(Seq::filter);
    if s.len() == 0 {
        assert(s.filter(weak) =~= s);
    } else {
        let t = s.drop_last();
        lemma_filter_refines(t, weak, strong);
        let w = t.filter(weak);
        if weak(s.last()) {
            assert(w.push(s.last()).drop_last() =~= w);
        }
    }
}

/// Filtering one element more either adds it or changes nothing.
pub proof fn lemma_filter_step<A>(s: Seq<A>, pred: spec_fn(A) -> bool, i: int)
    requires
        0 <= i < s.len(),
    ensures
        s.take(i + 1).filter(pred) == if pred(s[i]) {
            s.take(i).filter(pred).push(s[i])
        } else {
            s.take(i).filter(pred)
        },
{
    reveal(Seq::filter);
    assert(s.take(i + 1).drop_last() =~= s.take(i));
}

} // verus!
