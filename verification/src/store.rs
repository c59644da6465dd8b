//! What a relational store of the dictionary needs from the library: the
//! pattern of a prefix query, and the points at which a running import is
//! committed.

use vstd::prelude::*;
use vstd::string::{StrSliceExecFns, StringExecFns};
use crate::text::{chars_of, is_prefix_of};

verus! {

/// The character that takes their meaning from `%`, `_` and itself in a
/// `LIKE` pattern.
pub const ESCAPE: char = '\\';

/// The characters that have a meaning of their own in a `LIKE` pattern with
/// the escape character `ESCAPE`.
pub open spec fn is_special(c: char) -> bool {
    c == '%' || c == '_' || c == ESCAPE
}

/// `text` with the escape character put in front of every special
/// character.
pub open spec fn escaped(text: Seq<char>) -> Seq<char>
    decreases text.len(),
{
    if text.len() == 0 {
        Seq::empty()
    } else if is_special(text.last()) {
        escaped(text.drop_last()).push(ESCAPE).push(text.last())
    } else {
        escaped(text.drop_last()).push(text.last())
    }
}

/// The pattern that stands for the texts beginning with `prefix`: the
/// escaped prefix, then `%`.
pub open spec fn prefix_pattern(prefix: Seq<char>) -> Seq<char> {
    escaped(prefix).push('%')
}

/// Whether `text` matches `pattern` as a `LIKE` pattern with the escape
/// character `ESCAPE`: `%` stands for any run of characters, `_` for any
/// one character, an escaped character and every other character for
/// itself. Characters are compared exactly.
pub open spec fn like(pattern: Seq<char>, text: Seq<char>) -> bool
    decreases pattern.len(), text.len(),
{
    if pattern.len() == 0 {
        text.len() == 0
    } else if pattern[0] == ESCAPE {
        pattern.len() >= 2 && text.len() > 0 && text[0] == pattern[1] && like(
            pattern.skip(2),
            text.skip(1),
        )
    } else if pattern[0] == '%' {
        like(pattern.skip(1), text) || (text.len() > 0 && like(pattern, text.skip(1)))
    } else if pattern[0] == '_' {
        text.len() > 0 && like(pattern.skip(1), text.skip(1))
    } else {
        text.len() > 0 && text[0] == pattern[0] && like(pattern.skip(1), text.skip(1))
    }
}

/// `%` alone matches every text.
proof fn lemma_percent_matches_all(text: Seq<char>)
    ensures
        like(seq!['%'], text),
    decreases text.len(),
{
    let pattern = seq!['%'];
    if text.len() == 0 {
        assert(pattern.skip(1) =~= Seq::<char>::empty());
        assert(like(pattern.skip(1), text));
    } else {
        lemma_percent_matches_all(text.skip(1));
    }
}

/// Escaping goes character by character from the front as well.
proof fn lemma_escaped_front(text: Seq<char>)
    requires
        text.len() > 0,
    ensures
        escaped(text) == if is_special(text[0]) {
            seq![ESCAPE, text[0]] + escaped(text.skip(1))
        } else {
            seq![text[0]] + escaped(text.skip(1))
        },
    decreases text.len(),
{
    if text.len() == 1 {
        assert(text.drop_last() =~= Seq::<char>::empty());
        assert(text.skip(1) =~= Seq::<char>::empty());
        assert(escaped(Seq::<char>::empty()) =~= Seq::<char>::empty());
        if is_special(text[0]) {
            assert(escaped(text) =~= seq![ESCAPE, text[0]] + escaped(text.skip(1)));
        } else {
            assert(escaped(text) =~= seq![text[0]] + escaped(text.skip(1)));
        }
    } else {
        let front = text.drop_last();
        lemma_escaped_front(front);
        assert(front.skip(1) =~= text.skip(1).drop_last());
        assert(text.skip(1).last() == text.last());
        assert(front[0] == text[0]);
        if is_special(text[0]) {
            assert(escaped(text) =~= seq![ESCAPE, text[0]] + escaped(text.skip(1)));
        } else {
            assert(escaped(text) =~= seq![text[0]] + escaped(text.skip(1)));
        }
    }
}

/// The pattern of a prefix matches the texts that begin with the prefix,
/// and no others: no character of the prefix is taken for a wildcard.
pub proof fn lemma_prefix_pattern_matches_prefixed(prefix: Seq<char>, text: Seq<char>)
    ensures
        like(prefix_pattern(prefix), text) <==> is_prefix_of(prefix, text),
    decreases prefix.len(),
{
    let pattern = prefix_pattern(prefix);
    if prefix.len() == 0 {
        assert(escaped(prefix) =~= Seq::<char>::empty());
        assert(pattern =~= seq!['%']);
        lemma_percent_matches_all(text);
    } else {
        let c = prefix[0];
        let rest = prefix.skip(1);
        lemma_escaped_front(prefix);
        lemma_prefix_pattern_matches_prefixed(rest, text.skip(1));
        if is_special(c) {
            assert(pattern =~= seq![ESCAPE, c] + prefix_pattern(rest));
            assert(pattern.skip(2) =~= prefix_pattern(rest));
        } else {
            assert(pattern =~= seq![c] + prefix_pattern(rest));
            assert(pattern.skip(1) =~= prefix_pattern(rest));
        }
        if text.len() > 0 && text[0] == c {
            assert(is_prefix_of(rest, text.skip(1)) <==> is_prefix_of(prefix, text)) by {
                if is_prefix_of(rest, text.skip(1)) {
                    assert forall|i: int| 0 <= i < prefix.len() implies prefix[i] == text[i] by {
                        if i > 0 {
                            assert(rest[i - 1] == text.skip(1)[i - 1]);
                        }
                    }
                }
                if is_prefix_of(prefix, text) {
                    assert forall|i: int| 0 <= i < rest.len() implies rest[i] == text.skip(1)[i] by {
                        assert(prefix[i + 1] == text[i + 1]);
                    }
                }
            }
        }
    }
}

/// The `LIKE` pattern, with the escape character `ESCAPE`, of the texts
/// that begin with `prefix`.
pub fn like_pattern(prefix: &str) -> (pattern: String)
    ensures
        pattern@ == prefix_pattern(prefix@),
{
    let s = chars_of(prefix);
    let mut pattern = String::new();
    let mut kept: usize = 0;
    let mut i: usize = 0;
    assert(s@.take(0) =~= Seq::<char>::empty());
    assert(pattern@ + s@.subrange(0, 0) =~= pattern@);
    while i < s.len()
        invariant
            0 <= kept <= i <= s@.len(),
            s@ == prefix@,
            escaped(s@.take(i as int)) == pattern@ + s@.subrange(kept as int, i as int),
        decreases s@.len() - i,
    {
        let c = s[i];
        proof {
            assert(s@.take(i + 1).drop_last() =~= s@.take(i as int));
            assert(s@.take(i + 1).last() == c);
        }
        if c == '%' || c == '_' || c == ESCAPE {
            let ghost before = pattern@;
            pattern.append(prefix.substring_char(kept, i));
            pattern.append("\\");
            proof {
                reveal_strlit("\\");
                assert("\\"@ =~= seq![ESCAPE]);
                let chunk = s@.subrange(kept as int, i as int);
                assert((before + chunk).push(ESCAPE).push(c) =~= before + chunk + seq![ESCAPE] + s@.subrange(
                    i as int,
                    i + 1,
                ));
            }
            kept = i;
        } else {
            proof {
                let chunk = s@.subrange(kept as int, i as int);
                assert((pattern@ + chunk).push(c) =~= pattern@ + s@.subrange(kept as int, i + 1));
            }
        }
        i += 1;
    }
    pattern.append(prefix.substring_char(kept, s.len()));
    pattern.append("%");
    proof {
        reveal_strlit("%");
        assert("%"@ =~= seq!['%']);
        assert(s@.take(s@.len() as int) =~= s@);
        assert(pattern@ =~= escaped(s@).push('%'));
    }
    pattern
}

/// The number of lines after which a running import is committed.
pub const BATCH_SIZE: usize = 1000;

/// Whether an import that is about to take the line of index `line` commits
/// what it has taken so far: before every line whose index is a positive
/// multiple of `BATCH_SIZE`.
pub fn commit_due(line: usize) -> (r: bool)
    ensures
        r == (line > 0 && line % BATCH_SIZE == 0),
{
    line != 0 && line % BATCH_SIZE == 0
}

} // verus!
