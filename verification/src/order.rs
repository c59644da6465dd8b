//! The lexicographic order on character sequences by which the dictionary
//! index is kept.

use vstd::prelude::*;
use crate::text::is_prefix_of;

verus! {

/// How one sequence stands to another in the lexicographic order.
#[derive(Clone, Copy, Debug, PartialEq, Eq, Structural)]
pub enum Order {
    Before,
    Same,
    After,
}

/// `a` and `b` agree on their first `k` characters, and at position `k`
/// either `a` has ended and `b` has not, or `a` holds the smaller character.
pub open spec fn precedes_at(a: Seq<char>, b: Seq<char>, k: int) -> bool {
    &&& 0 <= k <= a.len()
    &&& k < b.len()
    &&& forall|i: int| 0 <= i < k ==> a[i] == b[i]
    &&& (k == a.len() || (a[k] as int) < (b[k] as int))
}

/// `a` comes strictly before `b`: character by character, by code point, a
/// proper prefix before its extensions.
pub open spec fn precedes(a: Seq<char>, b: Seq<char>) -> bool {
    exists|k: int| precedes_at(a, b, k)
}

/// The place of `a` relative to `b`.
pub open spec fn lex_order(a: Seq<char>, b: Seq<char>) -> Order {
    if precedes(a, b) {
        Order::Before
    } else if a == b {
        Order::Same
    } else {
        Order::After
    }
}

/// No sequence precedes itself, and no two precede each other.
pub proof fn lemma_precedes_asymmetric(a: Seq<char>, b: Seq<char>)
    requires
        precedes(a, b),
    ensures
        a != b,
        !precedes(b, a),
{
    let k = choose|k: int| precedes_at(a, b, k);
    if a == b {
        assert(false);
    }
    if precedes(b, a) {
        let j = choose|j: int| precedes_at(b, a, j);
        if j < k {
            assert(a[j] == b[j]);
        } else if k < j {
            assert(b[k] == a[k]);
        }
        assert(false);
    }
}

/// The order is transitive.
pub proof fn lemma_precedes_transitive(a: Seq<char>, b: Seq<char>, c: Seq<char>)
    requires
        precedes(a, b),
        precedes(b, c),
    ensures
        precedes(a, c),
{
    let k = choose|k: int| precedes_at(a, b, k);
    let j = choose|j: int| precedes_at(b, c, j);
    let m = if k <= j { k } else { j };
    assert forall|i: int| 0 <= i < m implies a[i] == c[i] by {
        assert(a[i] == b[i]);
        assert(b[i] == c[i]);
    }
    if k < j {
        assert(b[k] == c[k]);
    }
    assert(precedes_at(a, c, m));
}

/// Two sequences that do not precede one another are the same sequence.
pub proof fn lemma_precedes_total(a: Seq<char>, b: Seq<char>)
    ensures
        precedes(a, b) || a == b || precedes(b, a),
{
    lemma_total_from(a, b, 0);
}

proof fn lemma_total_from(a: Seq<char>, b: Seq<char>, i: int)
    requires
        0 <= i <= a.len(),
        i <= b.len(),
        forall|j: int| 0 <= j < i ==> a[j] == b[j],
    ensures
        precedes(a, b) || a == b || precedes(b, a),
    decreases a.len() - i,
{
    if i == a.len() {
        if i == b.len() {
            assert(a =~= b);
        } else {
            assert(precedes_at(a, b, i));
        }
    } else if i == b.len() {
        assert(precedes_at(b, a, i));
    } else if a[i] == b[i] {
        lemma_total_from(a, b, i + 1);
    } else if (a[i] as int) < (b[i] as int) {
        assert(precedes_at(a, b, i));
    } else {
        assert(precedes_at(b, a, i));
    }
}

/// A prefix never comes after the sequences it begins.
pub proof fn lemma_prefix_not_after(p: Seq<char>, s: Seq<char>)
    requires
        is_prefix_of(p, s),
    ensures
        !precedes(s, p),
{
    if precedes(s, p) {
        let k = choose|k: int| precedes_at(s, p, k);
        assert(p[k] == s[k]);
        assert(false);
    }
}

/// The sequences that begin with `p` lie together in the order: whatever
/// stands between `p` and one of them begins with `p` too.
pub proof fn lemma_prefix_block(p: Seq<char>, x: Seq<char>, y: Seq<char>)
    requires
        !precedes(x, p),
        precedes(x, y) || x == y,
        is_prefix_of(p, y),
    ensures
        is_prefix_of(p, x),
{
    if x != y {
        let k = choose|k: int| precedes_at(x, y, k);
        if k < p.len() {
            assert forall|i: int| 0 <= i < k implies x[i] == p[i] by {
                assert(x[i] == y[i]);
            }
            assert(p[k] == y[k]);
            assert(precedes_at(x, p, k));
            assert(false);
        } else {
            assert forall|i: int| 0 <= i < p.len() implies p[i] == x[i] by {
                assert(x[i] == y[i]);
            }
        }
    }
}

/// Nothing precedes the empty sequence.
pub proof fn lemma_nothing_before_empty(a: Seq<char>)
    ensures
        !precedes(a, Seq::<char>::empty()),
{
}

/// The place of the string `s` relative to the characters `w`.
pub fn order_of(s: &str, w: &[char]) -> (r: Order)
    ensures
        r == lex_order(s@, w@),
{
    let mut i: usize = 0;
    for c in it: s.chars()
        invariant
            it.seq() == s@,
            i == it.index(),
            i <= w@.len(),
            forall|j: int| 0 <= j < i ==> s@[j] == w@[j],
    {
        if i >= w.len() {
            proof {
                assert(precedes_at(w@, s@, i as int));
                lemma_precedes_asymmetric(w@, s@);
            }
            return Order::After;
        }
        let d = w[i];
        if c < d {
            proof {
                assert(precedes_at(s@, w@, i as int));
            }
            return Order::Before;
        }
        if d < c {
            proof {
                assert(precedes_at(w@, s@, i as int));
                lemma_precedes_asymmetric(w@, s@);
            }
            return Order::After;
        }
        i += 1;
    }
    if i < w.len() {
        proof {
            assert(precedes_at(s@, w@, i as int));
        }
        Order::Before
    } else {
        proof {
            assert(s@ =~= w@);
            if precedes(s@, w@) {
                lemma_precedes_asymmetric(s@, w@);
            }
        }
        Order::Same
    }
}

} // verus!
